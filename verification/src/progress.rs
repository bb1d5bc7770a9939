//! Read-only progress projections. Notification candidates use the delivery planner.
use std::collections::HashSet;
use vstd::prelude::*;
use crate::model::{NotificationMode, PlanView, PlannedNotification, Show, plan_views};
use crate::planner::{
    all_dated, has_later_season, in_season, is_final, is_plan, later_season_listed, latest_air, plan,
    scan_season,
};
use crate::sonarr::{Episode, Series, SeriesStatus};
use crate::text::same_text;

verus! {

broadcast use vstd::std_specs::hash::group_hash_axioms;

/// Episode counts of a season or of a whole series.
#[derive(Clone, Copy, Debug, PartialEq, Eq, Structural)]
pub struct Counts {
    pub total: usize,
    pub aired: usize,
    pub in_library: usize,
    pub undated: usize,
}

/// One episode in a season's progress.
#[derive(Clone, Debug)]
pub struct EpisodeProgress {
    pub id: i64,
    pub number: i64,
    pub title: String,
    pub air_at: Option<i64>,
    pub has_file: bool,
    pub monitored: bool,
    pub notified: bool,
}

/// The next notification that a season or show is waiting for.
#[derive(Clone, Copy, Debug, PartialEq, Eq, Structural)]
pub struct NextNotification {
    pub season: i64,
    pub episode: Option<i64>,
    pub due_at: i64,
    pub awaiting_confirmation: bool,
    pub episodes_remaining: usize,
}

/// Progress of one season.
#[derive(Clone, Debug)]
pub struct SeasonProgress {
    pub number: i64,
    pub counts: Counts,
    pub completion_confirmed: bool,
    pub final_air_at: Option<i64>,
    pub episodes: Vec<EpisodeProgress>,
    pub notification: Option<NextNotification>,
}

/// The next episode to air.
#[derive(Clone, Debug)]
pub struct NextRelease {
    pub season: i64,
    pub episode: i64,
    pub title: String,
    pub air_at: i64,
}

/// Airing, library and notification progress of a show.
#[derive(Clone, Debug)]
pub struct Progress {
    pub show: Show,
    pub status: SeriesStatus,
    pub monitored: bool,
    pub as_of: i64,
    pub counts: Counts,
    pub seasons: Vec<SeasonProgress>,
    pub next_release: Option<NextRelease>,
    pub next_notification: Option<NextNotification>,
    pub notification_block: Option<String>,
    pub tracking_since: i64,
}

// ---------------------------------------------------------------------
// Views
// ---------------------------------------------------------------------

pub struct EpisodeProgressView {
    pub id: i64,
    pub number: i64,
    pub title: Seq<char>,
    pub air_at: Option<i64>,
    pub has_file: bool,
    pub monitored: bool,
    pub notified: bool,
}

impl View for EpisodeProgress {
    type V = EpisodeProgressView;

    open spec fn view(&self) -> EpisodeProgressView {
        EpisodeProgressView {
            id: self.id,
            number: self.number,
            title: self.title@,
            air_at: self.air_at,
            has_file: self.has_file,
            monitored: self.monitored,
            notified: self.notified,
        }
    }
}

pub struct SeasonProgressView {
    pub number: i64,
    pub counts: Counts,
    pub completion_confirmed: bool,
    pub final_air_at: Option<i64>,
    pub episodes: Seq<EpisodeProgressView>,
    pub notification: Option<NextNotification>,
}

impl View for SeasonProgress {
    type V = SeasonProgressView;

    open spec fn view(&self) -> SeasonProgressView {
        SeasonProgressView {
            number: self.number,
            counts: self.counts,
            completion_confirmed: self.completion_confirmed,
            final_air_at: self.final_air_at,
            episodes: self.episodes@.map_values(|e: EpisodeProgress| e@),
            notification: self.notification,
        }
    }
}

pub struct NextReleaseView {
    pub season: i64,
    pub episode: i64,
    pub title: Seq<char>,
    pub air_at: i64,
}

impl View for NextRelease {
    type V = NextReleaseView;

    open spec fn view(&self) -> NextReleaseView {
        NextReleaseView {
            season: self.season,
            episode: self.episode,
            title: self.title@,
            air_at: self.air_at,
        }
    }
}

// ---------------------------------------------------------------------
// Counting
// ---------------------------------------------------------------------

/// Number of episodes in `eps` that satisfy `f`.
pub open spec fn count_where(eps: Seq<Episode>, f: spec_fn(Episode) -> bool) -> nat
    decreases eps.len(),
{
    if eps.len() == 0 {
        0
    } else {
        count_where(eps.drop_last(), f) + if f(eps.last()) {
            1nat
        } else {
            0nat
        }
    }
}

/// Whether `e` has aired by `now`.
pub open spec fn has_aired(e: Episode, now: i64) -> bool {
    e.air_date_utc matches Some(at) && at <= now
}

/// The episodes selected by `f` that have aired by `now`.
pub open spec fn aired_among(f: spec_fn(Episode) -> bool, now: i64) -> spec_fn(Episode) -> bool {
    |e: Episode| f(e) && has_aired(e, now)
}

/// The episodes selected by `f` that are in the library.
pub open spec fn in_library_among(f: spec_fn(Episode) -> bool) -> spec_fn(Episode) -> bool {
    |e: Episode| f(e) && e.has_file
}

/// The episodes selected by `f` without a known air time.
pub open spec fn undated_among(f: spec_fn(Episode) -> bool) -> spec_fn(Episode) -> bool {
    |e: Episode| f(e) && e.air_date_utc is None
}

/// Counts over the episodes of `eps` selected by `f`.
pub open spec fn counts_where(eps: Seq<Episode>, f: spec_fn(Episode) -> bool, now: i64) -> Counts {
    Counts {
        total: count_where(eps, f) as usize,
        aired: count_where(eps, aired_among(f, now)) as usize,
        in_library: count_where(eps, in_library_among(f)) as usize,
        undated: count_where(eps, undated_among(f)) as usize,
    }
}

/// The show's episodes outside specials.
pub open spec fn regular_episode(series_id: i64) -> spec_fn(Episode) -> bool {
    |e: Episode| e.series_id == series_id && e.season_number > 0
}

/// The episodes of one season of the show.
pub open spec fn season_episode(series_id: i64, season: i64) -> spec_fn(Episode) -> bool {
    |e: Episode| in_season(e, series_id, season)
}

// ---------------------------------------------------------------------
// Notification candidates
// ---------------------------------------------------------------------

/// Whether the delivery record of `key` is anything but `pending`.
pub open spec fn delivery_blocked(deliveries: Seq<(String, String)>, key: Seq<char>) -> bool {
    exists|i: int|
        0 <= i < deliveries.len() && (#[trigger] deliveries[i]).0@ == key && deliveries[i].1@
            != "pending"@
}

/// Whether some listed episode has not yet been covered by a delivery.
pub open spec fn has_uncovered(ids: Seq<i64>, covered: Set<i64>) -> bool {
    exists|k: int| 0 <= k < ids.len() && !covered.contains(#[trigger] ids[k])
}

/// A plan is a candidate when it matches the show's mode, has not been
/// attempted, and still covers an episode that was not announced.
pub open spec fn is_candidate(
    show: Show,
    p: PlanView,
    covered: Set<i64>,
    deliveries: Seq<(String, String)>,
) -> bool {
    &&& p.mode == show.mode
    &&& !delivery_blocked(deliveries, p.key)
    &&& has_uncovered(p.episode_ids, covered)
}

/// Whether `k` is the first position of an episode with identifier `id`.
pub open spec fn is_first_with_id(eps: Seq<Episode>, id: i64, k: int) -> bool {
    &&& 0 <= k < eps.len()
    &&& eps[k].id == id
    &&& forall|j: int| 0 <= j < k ==> (#[trigger] eps[j]).id != id
}

/// The episode number of the first episode with identifier `id`, if any.
pub open spec fn episode_number_of(eps: Seq<Episode>, id: Option<i64>) -> Option<i64> {
    match id {
        Some(id) => if exists|k: int| is_first_with_id(eps, id, k) {
            Some(eps[choose|k: int| is_first_with_id(eps, id, k)].episode_number)
        } else {
            None
        },
        None => None,
    }
}

/// Whether `e` still has to air before the notification `p` concerns it.
pub open spec fn remains_for(series_id: i64, p: PlanView, now: i64) -> spec_fn(Episode) -> bool {
    |e: Episode|
        e.series_id == series_id && e.season_number == p.season && (p.mode
            == NotificationMode::Season || Some(e.id) == p.episode_id) && (e.air_date_utc is None
            || e.air_date_utc->0 > now)
}

/// The candidate shown for plan `p`; a webhook backoff delays it.
pub open spec fn candidate_of(show: Show, eps: Seq<Episode>, p: PlanView, now: i64, retry_at: i64) -> NextNotification {
    NextNotification {
        season: p.season,
        episode: episode_number_of(eps, p.episode_id),
        due_at: if p.due_at >= retry_at { p.due_at } else { retry_at },
        awaiting_confirmation: p.awaiting_confirmation,
        episodes_remaining: count_where(eps, remains_for(show.id, p, now)) as usize,
    }
}

/// The candidates among `plans`, in plan order.
pub open spec fn candidates(
    show: Show,
    eps: Seq<Episode>,
    plans: Seq<PlanView>,
    now: i64,
    covered: Set<i64>,
    deliveries: Seq<(String, String)>,
    retry_at: i64,
) -> Seq<NextNotification>
    decreases plans.len(),
{
    if plans.len() == 0 {
        seq![]
    } else {
        let rest = candidates(show, eps, plans.drop_last(), now, covered, deliveries, retry_at);
        if is_candidate(show, plans.last(), covered, deliveries) {
            rest.push(candidate_of(show, eps, plans.last(), now, retry_at))
        } else {
            rest
        }
    }
}

/// The first candidate of `season` with the earliest due time.
pub open spec fn earliest_for_season(cands: Seq<NextNotification>, season: i64) -> Option<NextNotification>
    decreases cands.len(),
{
    if cands.len() == 0 {
        None
    } else {
        let best = earliest_for_season(cands.drop_last(), season);
        let c = cands.last();
        if c.season == season && (best is None || c.due_at < best->0.due_at) {
            Some(c)
        } else {
            best
        }
    }
}

/// Whether `a` is more urgent than `b`: confirmed before held, then earlier due.
pub open spec fn more_urgent(a: NextNotification, b: NextNotification) -> bool {
    (!a.awaiting_confirmation && b.awaiting_confirmation) || (a.awaiting_confirmation
        == b.awaiting_confirmation && a.due_at < b.due_at)
}

/// The first most urgent candidate.
pub open spec fn most_urgent(cands: Seq<NextNotification>) -> Option<NextNotification>
    decreases cands.len(),
{
    if cands.len() == 0 {
        None
    } else {
        let best = most_urgent(cands.drop_last());
        let c = cands.last();
        if best is None || more_urgent(c, best->0) {
            Some(c)
        } else {
            best
        }
    }
}

// ---------------------------------------------------------------------
// Releases and seasons
// ---------------------------------------------------------------------

/// Whether `e` is an episode of the show that airs after `now`.
pub open spec fn upcoming(e: Episode, series_id: i64, now: i64) -> bool {
    e.series_id == series_id && e.air_date_utc is Some && e.air_date_utc->0 > now
}

/// Whether episode `a` airs before `b`, identifiers breaking ties.
pub open spec fn airs_before(a: Episode, b: Episode) -> bool {
    a.air_date_utc->0 < b.air_date_utc->0 || (a.air_date_utc->0 == b.air_date_utc->0 && a.id
        < b.id)
}

/// Position of the first upcoming episode that airs soonest.
pub open spec fn next_release_index(eps: Seq<Episode>, series_id: i64, now: i64) -> Option<int>
    decreases eps.len(),
{
    if eps.len() == 0 {
        None
    } else {
        let best = next_release_index(eps.drop_last(), series_id, now);
        let last = eps.len() - 1;
        if upcoming(eps[last], series_id, now) && (best is None || airs_before(
            eps[last],
            eps[best->0],
        )) {
            Some(last)
        } else {
            best
        }
    }
}

/// Whether position `a` precedes `b` in a season listing: by episode number,
/// then identifier, then position in Sonarr's list.
pub open spec fn listed_before(eps: Seq<Episode>, a: int, b: int) -> bool {
    ||| eps[a].episode_number < eps[b].episode_number
    ||| eps[a].episode_number == eps[b].episode_number && eps[a].id < eps[b].id
    ||| eps[a].episode_number == eps[b].episode_number && eps[a].id == eps[b].id && a < b
}

/// `order` lists the positions of the season's episodes in listing order.
pub open spec fn is_listing(eps: Seq<Episode>, series_id: i64, season: i64, order: Seq<int>) -> bool {
    &&& forall|k: int|
        0 <= k < order.len() ==> 0 <= #[trigger] order[k] < eps.len() && in_season(
            eps[order[k]],
            series_id,
            season,
        )
    &&& forall|a: int, b: int|
        0 <= a < b < order.len() ==> listed_before(eps, #[trigger] order[a], #[trigger] order[b])
    &&& forall|j: int|
        0 <= j < eps.len() && in_season(#[trigger] eps[j], series_id, season) ==> exists|k: int|
            0 <= k < order.len() && #[trigger] order[k] == j
}

/// The progress entry of an episode.
pub open spec fn episode_progress(e: Episode, covered: Set<i64>) -> EpisodeProgressView {
    EpisodeProgressView {
        id: e.id,
        number: e.episode_number,
        title: e.title@,
        air_at: e.air_date_utc,
        has_file: e.has_file,
        monitored: e.monitored,
        notified: covered.contains(e.id),
    }
}

/// Whether the listing numbers the season 1, 2, ..., n.
pub open spec fn listed_from_one(eps: Seq<Episode>, order: Seq<int>) -> bool {
    forall|k: int| 0 <= k < order.len() ==> eps[#[trigger] order[k]].episode_number == k + 1
}

/// Evidence that the season is complete: a finale on its last listed episode,
/// a later season, or an ended series.
pub open spec fn completion_evidence(
    series: Series,
    eps: Seq<Episode>,
    series_id: i64,
    season: i64,
    order: Seq<int>,
) -> bool {
    ||| order.len() > 0 && is_final(eps[order.last()].finale_type)
    ||| has_later_season(eps, series_id, season)
    ||| series.status == SeriesStatus::Ended
}

/// Whether the season's completion is confirmed.
pub open spec fn completion_confirmed(
    series: Series,
    eps: Seq<Episode>,
    series_id: i64,
    season: i64,
    order: Seq<int>,
) -> bool {
    &&& season > 0
    &&& listed_from_one(eps, order)
    &&& completion_evidence(series, eps, series_id, season, order)
    &&& all_dated(eps, series_id, season)
}

/// The progress of a season, given its listing.
pub open spec fn season_progress(
    show: Show,
    series: Series,
    eps: Seq<Episode>,
    now: i64,
    covered: Set<i64>,
    cands: Seq<NextNotification>,
    season: i64,
    order: Seq<int>,
) -> SeasonProgressView {
    let confirmed = completion_confirmed(series, eps, show.id, season, order);
    SeasonProgressView {
        number: season,
        counts: counts_where(eps, season_episode(show.id, season), now),
        completion_confirmed: confirmed,
        final_air_at: if confirmed {
            latest_air(eps, show.id, season)
        } else {
            None
        },
        episodes: order.map_values(|j: int| episode_progress(eps[j], covered)),
        notification: earliest_for_season(cands, season),
    }
}

/// `entry` is the progress of its season, for some listing of that season.
pub open spec fn is_season_entry(
    entry: SeasonProgressView,
    show: Show,
    series: Series,
    eps: Seq<Episode>,
    now: i64,
    covered: Set<i64>,
    cands: Seq<NextNotification>,
) -> bool {
    exists|order: Seq<int>|
        is_listing(eps, show.id, entry.number, order) && order.len() > 0 && entry == season_progress(
            show,
            series,
            eps,
            now,
            covered,
            cands,
            entry.number,
            order,
        )
}

/// `seasons` lists every season of the show once, by ascending number.
pub open spec fn is_season_listing(
    seasons: Seq<SeasonProgressView>,
    show: Show,
    series: Series,
    eps: Seq<Episode>,
    now: i64,
    covered: Set<i64>,
    cands: Seq<NextNotification>,
) -> bool {
    &&& forall|a: int, b: int|
        0 <= a < b < seasons.len() ==> (#[trigger] seasons[a]).number < (
        #[trigger] seasons[b]).number
    &&& forall|i: int|
        0 <= i < seasons.len() ==> is_season_entry(
            #[trigger] seasons[i],
            show,
            series,
            eps,
            now,
            covered,
            cands,
        )
    &&& forall|j: int|
        0 <= j < eps.len() && (#[trigger] eps[j]).series_id == show.id ==> exists|i: int|
            0 <= i < seasons.len() && (#[trigger] seasons[i]).number == eps[j].season_number
}

/// Why notifications for the show are held, if they are.
pub open spec fn notification_block(show: Show, series: Series, webhook_disabled: bool) -> Option<
    Seq<char>,
> {
    if !show.active {
        Some("This show has been removed from Sonarr."@)
    } else if show.excluded {
        Some("Notifications are excluded for this show."@)
    } else if !series.monitored {
        Some("This series is not monitored in Sonarr."@)
    } else if webhook_disabled {
        Some("Discord delivery is paused. Resume it from Overview."@)
    } else {
        None
    }
}

// ---------------------------------------------------------------------
// Executable projection
// ---------------------------------------------------------------------

proof fn lemma_count_bounded(eps: Seq<Episode>, f: spec_fn(Episode) -> bool)
    ensures
        count_where(eps, f) <= eps.len(),
    decreases eps.len(),
{
    if eps.len() > 0 {
        lemma_count_bounded(eps.drop_last(), f);
    }
}

/// The episodes counted for a season (`Some`) or for the whole show (`None`).
pub open spec fn selector(series_id: i64, season: Option<i64>) -> spec_fn(Episode) -> bool {
    match season {
        Some(s) => season_episode(series_id, s),
        None => regular_episode(series_id),
    }
}

fn selected(e: &Episode, series_id: i64, season: Option<i64>) -> (r: bool)
    ensures
        r == selector(series_id, season)(*e),
{
    match season {
        Some(s) => e.series_id == series_id && e.season_number == s,
        None => e.series_id == series_id && e.season_number > 0,
    }
}

fn count_episodes(episodes: &[Episode], series_id: i64, season: Option<i64>, now: i64) -> (c: Counts)
    ensures
        c == counts_where(episodes@, selector(series_id, season), now),
{
    let ghost f = selector(series_id, season);
    let ghost eps = episodes@;
    let mut total: usize = 0;
    let mut aired: usize = 0;
    let mut in_library: usize = 0;
    let mut undated: usize = 0;
    for i in 0..episodes.len()
        invariant
            eps == episodes@,
            f == selector(series_id, season),
            total as nat == count_where(eps.take(i as int), f),
            aired as nat == count_where(eps.take(i as int), aired_among(f, now)),
            in_library as nat == count_where(eps.take(i as int), in_library_among(f)),
            undated as nat == count_where(eps.take(i as int), undated_among(f)),
            total <= i,
            aired <= i,
            in_library <= i,
            undated <= i,
    {
        let e = &episodes[i];
        assert(eps.take(i + 1).drop_last() =~= eps.take(i as int));
        assert(eps.take(i + 1).last() == *e);
        if selected(e, series_id, season) {
            total = total + 1;
            match e.air_date_utc {
                Some(at) => {
                    if at <= now {
                        aired = aired + 1;
                    }
                },
                None => {
                    undated = undated + 1;
                },
            }
            if e.has_file {
                in_library = in_library + 1;
            }
        }
    }
    assert(eps.take(episodes.len() as int) =~= eps);
    Counts { total, aired, in_library, undated }
}

fn is_blocked(deliveries: &[(String, String)], key: &String) -> (r: bool)
    ensures
        r == delivery_blocked(deliveries@, key@),
{
    for i in 0..deliveries.len()
        invariant
            forall|j: int|
                0 <= j < i ==> !((#[trigger] deliveries@[j]).0@ == key@ && deliveries@[j].1@
                    != "pending"@),
    {
        let entry = &deliveries[i];
        if entry.0 == *key && !same_text(entry.1.as_str(), "pending") {
            assert(deliveries@[i as int] == *entry);
            return true;
        }
    }
    false
}

fn any_uncovered(ids: &Vec<i64>, covered: &HashSet<i64>) -> (r: bool)
    ensures
        r == has_uncovered(ids@, covered@),
{
    for k in 0..ids.len()
        invariant
            forall|j: int| 0 <= j < k ==> covered@.contains(#[trigger] ids@[j]),
    {
        if !covered.contains(&ids[k]) {
            assert(!covered@.contains(ids@[k as int]));
            return true;
        }
    }
    false
}

fn find_episode_number(episodes: &[Episode], id: Option<i64>) -> (r: Option<i64>)
    ensures
        r == episode_number_of(episodes@, id),
{
    match id {
        None => None,
        Some(wanted) => {
            for k in 0..episodes.len()
                invariant
                    id == Some(wanted),
                    forall|j: int| 0 <= j < k ==> (#[trigger] episodes@[j]).id != wanted,
            {
                if episodes[k].id == wanted {
                    proof {
                        assert(is_first_with_id(episodes@, wanted, k as int));
                        let c = choose|c: int| is_first_with_id(episodes@, wanted, c);
                        if c < k {
                            assert(episodes@[c].id != wanted);
                        }
                        if k < c {
                            assert(episodes@[k as int].id != wanted);
                        }
                        assert(c == k);
                        assert(episode_number_of(episodes@, Some(wanted)) == Some(
                            episodes@[k as int].episode_number,
                        ));
                    }
                    return Some(episodes[k].episode_number);
                }
            }
            proof {
                if exists|k: int| is_first_with_id(episodes@, wanted, k) {
                    let c = choose|c: int| is_first_with_id(episodes@, wanted, c);
                    assert(episodes@[c].id != wanted);
                }
            }
            None
        },
    }
}

fn count_remaining(episodes: &[Episode], series_id: i64, p: &PlannedNotification, now: i64) -> (n: usize)
    ensures
        n as nat == count_where(episodes@, remains_for(series_id, p@, now)),
{
    let ghost f = remains_for(series_id, p@, now);
    let ghost eps = episodes@;
    let mut n: usize = 0;
    for i in 0..episodes.len()
        invariant
            eps == episodes@,
            f == remains_for(series_id, p@, now),
            n as nat == count_where(eps.take(i as int), f),
            n <= i,
    {
        let e = &episodes[i];
        assert(eps.take(i + 1).drop_last() =~= eps.take(i as int));
        assert(eps.take(i + 1).last() == *e);
        let mode_fits = match p.mode {
            NotificationMode::Season => true,
            NotificationMode::Episode => p.episode_id == Some(e.id),
        };
        let pending = match e.air_date_utc {
            Some(at) => at > now,
            None => true,
        };
        if e.series_id == series_id && e.season_number == p.season && mode_fits && pending {
            n = n + 1;
        }
    }
    assert(eps.take(episodes.len() as int) =~= eps);
    n
}

fn collect_candidates(
    show: &Show,
    episodes: &[Episode],
    plans: &Vec<PlannedNotification>,
    now: i64,
    covered: &HashSet<i64>,
    deliveries: &[(String, String)],
    retry_at: i64,
) -> (c: Vec<NextNotification>)
    ensures
        c@ == candidates(*show, episodes@, plan_views(plans@), now, covered@, deliveries@, retry_at),
{
    let ghost v = plan_views(plans@);
    let mut c: Vec<NextNotification> = Vec::new();
    for i in 0..plans.len()
        invariant
            v == plan_views(plans@),
            c@ == candidates(*show, episodes@, v.take(i as int), now, covered@, deliveries@, retry_at),
    {
        let p = &plans[i];
        assert(v.take(i + 1).drop_last() =~= v.take(i as int));
        assert(v.take(i + 1).last() == p@);
        if p.mode == show.mode && !is_blocked(deliveries, &p.key) && any_uncovered(
            &p.episode_ids,
            covered,
        ) {
            let remaining = count_remaining(episodes, show.id, p, now);
            proof {
                lemma_count_bounded(episodes@, remains_for(show.id, p@, now));
            }
            let due_at = if p.due_at >= retry_at {
                p.due_at
            } else {
                retry_at
            };
            c.push(
                NextNotification {
                    season: p.season,
                    episode: find_episode_number(episodes, p.episode_id),
                    due_at,
                    awaiting_confirmation: p.awaiting_confirmation,
                    episodes_remaining: remaining,
                },
            );
        }
    }
    assert(v.take(plans.len() as int) =~= v);
    c
}

fn earliest_of_season(cands: &Vec<NextNotification>, season: i64) -> (r: Option<NextNotification>)
    ensures
        r == earliest_for_season(cands@, season),
{
    let mut best: Option<NextNotification> = None;
    for i in 0..cands.len()
        invariant
            best == earliest_for_season(cands@.take(i as int), season),
    {
        let c = cands[i];
        assert(cands@.take(i + 1).drop_last() =~= cands@.take(i as int));
        assert(cands@.take(i + 1).last() == c);
        let better = match best {
            Some(b) => c.due_at < b.due_at,
            None => true,
        };
        if c.season == season && better {
            best = Some(c);
        }
    }
    assert(cands@.take(cands.len() as int) =~= cands@);
    best
}

fn most_urgent_of(cands: &Vec<NextNotification>) -> (r: Option<NextNotification>)
    ensures
        r == most_urgent(cands@),
{
    let mut best: Option<NextNotification> = None;
    for i in 0..cands.len()
        invariant
            best == most_urgent(cands@.take(i as int)),
    {
        let c = cands[i];
        assert(cands@.take(i + 1).drop_last() =~= cands@.take(i as int));
        assert(cands@.take(i + 1).last() == c);
        let better = match best {
            Some(b) => (!c.awaiting_confirmation && b.awaiting_confirmation) || (
            c.awaiting_confirmation == b.awaiting_confirmation && c.due_at < b.due_at),
            None => true,
        };
        if better {
            best = Some(c);
        }
    }
    assert(cands@.take(cands.len() as int) =~= cands@);
    best
}

fn next_release_of(episodes: &[Episode], series_id: i64, now: i64) -> (r: Option<NextRelease>)
    ensures
        match r {
            Some(rel) => next_release_index(episodes@, series_id, now) matches Some(k) && rel@
                == release_of(episodes@[k]),
            None => next_release_index(episodes@, series_id, now) is None,
        },
{
    let ghost eps = episodes@;
    let mut best: Option<usize> = None;
    for i in 0..episodes.len()
        invariant
            eps == episodes@,
            match best {
                Some(b) => next_release_index(eps.take(i as int), series_id, now) == Some(b as int)
                    && b < i,
                None => next_release_index(eps.take(i as int), series_id, now) is None,
            },
    {
        let e = &episodes[i];
        let ghost t = eps.take(i + 1);
        assert(t.drop_last() =~= eps.take(i as int));
        assert(t[t.len() - 1] == *e);
        let soon = match e.air_date_utc {
            Some(at) => e.series_id == series_id && at > now,
            None => false,
        };
        if soon {
            let better = match best {
                Some(b) => {
                    let o = &episodes[b];
                    assert(t[b as int] == *o);
                    let (ea, oa) = match (e.air_date_utc, o.air_date_utc) {
                        (Some(x), Some(y)) => (x, y),
                        _ => (0, 0),
                    };
                    proof {
                        lemma_release_index_upcoming(eps.take(i as int), series_id, now);
                        assert(eps.take(i as int)[b as int] == *o);
                    }
                    ea < oa || (ea == oa && e.id < o.id)
                },
                None => true,
            };
            if better {
                best = Some(i);
            }
        }
    }
    assert(eps.take(episodes.len() as int) =~= eps);
    match best {
        Some(b) => {
            let e = &episodes[b];
            let at = match e.air_date_utc {
                Some(x) => x,
                None => 0,
            };
            proof {
                lemma_release_index_upcoming(eps, series_id, now);
            }
            Some(
                NextRelease {
                    season: e.season_number,
                    episode: e.episode_number,
                    title: e.title.clone(),
                    air_at: at,
                },
            )
        },
        None => None,
    }
}

proof fn lemma_release_index_upcoming(eps: Seq<Episode>, series_id: i64, now: i64)
    ensures
        next_release_index(eps, series_id, now) matches Some(k) ==> 0 <= k < eps.len() && upcoming(
            eps[k],
            series_id,
            now,
        ),
    decreases eps.len(),
{
    if eps.len() > 0 {
        lemma_release_index_upcoming(eps.drop_last(), series_id, now);
    }
}

/// The release entry of an episode.
pub open spec fn release_of(e: Episode) -> NextReleaseView {
    NextReleaseView {
        season: e.season_number,
        episode: e.episode_number,
        title: e.title@,
        air_at: e.air_date_utc->0,
    }
}

/// The smallest season number of the show greater than `after` (any, when `None`).
fn next_group(episodes: &[Episode], series_id: i64, after: Option<i64>) -> (r: Option<i64>)
    ensures
        r matches Some(s) ==> (after matches Some(a) ==> s > a) && exists|i: int|
            0 <= i < episodes@.len() && in_season(#[trigger] episodes@[i], series_id, s),
        r matches Some(s) ==> forall|i: int|
            0 <= i < episodes@.len() && (#[trigger] episodes@[i]).series_id == series_id && (
            after matches Some(a) ==> episodes@[i].season_number > a) ==> episodes@[i].season_number
                >= s,
        r is None ==> forall|i: int|
            0 <= i < episodes@.len() && (#[trigger] episodes@[i]).series_id == series_id ==> (
            after matches Some(a) && episodes@[i].season_number <= a),
{
    let mut best: Option<i64> = None;
    for i in 0..episodes.len()
        invariant
            best matches Some(s) ==> (after matches Some(a) ==> s > a) && exists|j: int|
                0 <= j < i && in_season(#[trigger] episodes@[j], series_id, s),
            best matches Some(s) ==> forall|j: int|
                0 <= j < i && (#[trigger] episodes@[j]).series_id == series_id && (
                after matches Some(a) ==> episodes@[j].season_number > a)
                    ==> episodes@[j].season_number >= s,
            best is None ==> forall|j: int|
                0 <= j < i && (#[trigger] episodes@[j]).series_id == series_id ==> (
                after matches Some(a) && episodes@[j].season_number <= a),
    {
        let e = &episodes[i];
        let later = match after {
            Some(a) => e.season_number > a,
            None => true,
        };
        if e.series_id == series_id && later {
            let better = match best {
                Some(s) => e.season_number < s,
                None => true,
            };
            if better {
                best = Some(e.season_number);
                assert(in_season(episodes@[i as int], series_id, e.season_number));
            }
        }
    }
    best
}

/// The season episode that follows position `after` in listing order (the first when `None`).
fn next_listed_after(episodes: &[Episode], series_id: i64, season: i64, after: Option<usize>) -> (r:
    Option<usize>)
    requires
        after matches Some(a) ==> a < episodes@.len(),
    ensures
        r matches Some(j) ==> j < episodes@.len() && in_season(episodes@[j as int], series_id, season)
            && (after matches Some(a) ==> listed_before(episodes@, a as int, j as int)),
        r matches Some(j) ==> forall|m: int|
            0 <= m < episodes@.len() && in_season(#[trigger] episodes@[m], series_id, season) && (
            after matches Some(a) ==> listed_before(episodes@, a as int, m)) ==> m == j
                || listed_before(episodes@, j as int, m),
        r is None ==> forall|m: int|
            0 <= m < episodes@.len() && in_season(#[trigger] episodes@[m], series_id, season) ==> (
            after matches Some(a) && !listed_before(episodes@, a as int, m)),
{
    let ghost eps = episodes@;
    let mut best: Option<usize> = None;
    for i in 0..episodes.len()
        invariant
            eps == episodes@,
            after matches Some(a) ==> a < eps.len(),
            best matches Some(j) ==> j < i && in_season(eps[j as int], series_id, season) && (
            after matches Some(a) ==> listed_before(eps, a as int, j as int)),
            best matches Some(j) ==> forall|m: int|
                0 <= m < i && in_season(#[trigger] eps[m], series_id, season) && (
                after matches Some(a) ==> listed_before(eps, a as int, m)) ==> m == j
                    || listed_before(eps, j as int, m),
            best is None ==> forall|m: int|
                0 <= m < i && in_season(#[trigger] eps[m], series_id, season) ==> (
                after matches Some(a) && !listed_before(eps, a as int, m)),
    {
        let e = &episodes[i];
        if e.series_id == series_id && e.season_number == season {
            let later = match after {
                Some(a) => {
                    let o = &episodes[a];
                    e.episode_number > o.episode_number || (e.episode_number == o.episode_number
                        && (e.id > o.id || (e.id == o.id && i > a)))
                },
                None => true,
            };
            if later {
                let better = match best {
                    Some(b) => {
                        let o = &episodes[b];
                        e.episode_number < o.episode_number || (e.episode_number
                            == o.episode_number && e.id < o.id)
                    },
                    None => true,
                };
                if better {
                    best = Some(i);
                }
            }
        }
    }
    best
}

/// Positions as integers.
pub open spec fn positions(v: Seq<usize>) -> Seq<int> {
    v.map_values(|x: usize| x as int)
}

/// The season's episodes in listing order.
fn listing_of(episodes: &[Episode], series_id: i64, season: i64) -> (order: Vec<usize>)
    ensures
        is_listing(episodes@, series_id, season, positions(order@)),
{
    let ghost eps = episodes@;
    let mut order: Vec<usize> = Vec::new();
    let mut last: Option<usize> = None;
    loop
        invariant
            eps == episodes@,
            last matches Some(a) ==> a < eps.len() && order@.len() > 0 && order@.last() == a,
            last is None ==> order@.len() == 0,
            forall|k: int|
                0 <= k < order@.len() ==> (#[trigger] order@[k]) < eps.len() && in_season(
                    eps[order@[k] as int],
                    series_id,
                    season,
                ),
            forall|x: int, y: int|
                0 <= x < y < order@.len() ==> listed_before(
                    eps,
                    (#[trigger] order@[x]) as int,
                    (#[trigger] order@[y]) as int,
                ),
            forall|m: int|
                0 <= m < eps.len() && in_season(#[trigger] eps[m], series_id, season) && (
                last matches Some(a) && !listed_before(eps, a as int, m)) ==> exists|k: int|
                    0 <= k < order@.len() && order@[k] as int == m,
        decreases eps.len() - order@.len(),
    {
        let next = next_listed_after(episodes, series_id, season, last);
        match next {
            None => {
                proof {
                    let p = positions(order@);
                    assert forall|j: int|
                        0 <= j < eps.len() && in_season(#[trigger] eps[j], series_id, season)
                            implies exists|k: int| 0 <= k < p.len() && #[trigger] p[k] == j by {
                        let k = choose|k: int| 0 <= k < order@.len() && order@[k] as int == j;
                        assert(p[k] == j);
                    }
                    assert forall|a: int, b: int| 0 <= a < b < p.len() implies listed_before(
                        eps,
                        #[trigger] p[a],
                        #[trigger] p[b],
                    ) by {
                        assert(listed_before(eps, order@[a] as int, order@[b] as int));
                    }
                    assert forall|k: int| 0 <= k < p.len() implies 0 <= #[trigger] p[k] < eps.len()
                        && in_season(eps[p[k]], series_id, season) by {
                        assert(order@[k] < eps.len());
                    }
                }
                return order;
            },
            Some(j) => {
                proof {
                    // Every listed episode precedes j, so j is new.
                    assert forall|k: int| 0 <= k < order@.len() implies (#[trigger] order@[k])
                        != j by {
                        if k < order@.len() - 1 {
                            assert(listed_before(eps, order@[k] as int, order@.last() as int));
                        }
                    }
                    lemma_listing_bounded(eps, series_id, season, order@.push(j));
                }
                let ghost old_order = order@;
                order.push(j);
                proof {
                    assert forall|m: int|
                        0 <= m < eps.len() && in_season(#[trigger] eps[m], series_id, season)
                            && !listed_before(eps, j as int, m) implies exists|k: int|
                        0 <= k < order@.len() && order@[k] as int == m by {
                        if m == j as int {
                            assert(order@[order@.len() - 1] as int == m);
                        } else {
                            match last {
                                Some(a) => {
                                    if listed_before(eps, a as int, m) {
                                    } else {
                                        let k = choose|k: int|
                                            0 <= k < old_order.len() && old_order[k] as int == m;
                                        assert(order@[k] == old_order[k]);
                                    }
                                },
                                None => {},
                            }
                        }
                    }
                }
                last = Some(j);
            },
        }
    }
}

proof fn lemma_listing_bounded(eps: Seq<Episode>, series_id: i64, season: i64, order: Seq<usize>)
    requires
        forall|k: int| 0 <= k < order.len() ==> (#[trigger] order[k]) < eps.len(),
        forall|x: int, y: int|
            0 <= x < y < order.len() ==> (#[trigger] order[x]) != (#[trigger] order[y]),
    ensures
        order.len() <= eps.len(),
{
    let s = order.to_set();
    assert forall|x: usize| s.contains(x) implies (x as int) < eps.len() by {
        let k = choose|k: int| 0 <= k < order.len() && order[k] == x;
    }
    order.unique_seq_to_set();
    let bound = Set::new(|x: usize| (x as int) < eps.len());
    assert(s.subset_of(bound));
    lemma_usize_prefix_set(eps.len());
    vstd::set_lib::lemma_len_subset(s, bound);
}

pub(crate) proof fn lemma_usize_prefix_set(n: nat)
    ensures
        Set::new(|x: usize| (x as int) < n).finite(),
        Set::new(|x: usize| (x as int) < n).len() <= n,
    decreases n,
{
    let s = Set::new(|x: usize| (x as int) < n);
    if n == 0 {
        assert(s =~= Set::empty());
    } else {
        lemma_usize_prefix_set((n - 1) as nat);
        let t = Set::new(|x: usize| (x as int) < n - 1);
        if n - 1 <= usize::MAX {
            let top = (n - 1) as usize;
            assert(s =~= t.insert(top));
        } else {
            assert(s =~= t);
        }
    }
}

fn season_progress_of(
    show: &Show,
    series: &Series,
    episodes: &[Episode],
    now: i64,
    covered: &HashSet<i64>,
    cands: &Vec<NextNotification>,
    season: i64,
    order: &Vec<usize>,
) -> (r: SeasonProgress)
    requires
        is_listing(episodes@, show.id, season, positions(order@)),
    ensures
        r@ == season_progress(
            *show,
            *series,
            episodes@,
            now,
            covered@,
            cands@,
            season,
            positions(order@),
        ),
{
    let ghost eps = episodes@;
    let ghost p = positions(order@);
    assert forall|k: int| 0 <= k < order@.len() implies (#[trigger] order@[k]) < eps.len() by {
        assert(0 <= p[k] < eps.len());
    }
    let counts = count_episodes(episodes, show.id, Some(season), now);
    let mut from_one = true;
    for k in 0..order.len()
        invariant
            eps == episodes@,
            p == positions(order@),
            forall|x: int| 0 <= x < order@.len() ==> (#[trigger] order@[x]) < eps.len(),
            from_one == (forall|x: int|
                0 <= x < k ==> eps[#[trigger] p[x]].episode_number == x + 1),
    {
        let e = &episodes[order[k]];
        assert(p[k as int] == order@[k as int] as int);
        let fits = e.episode_number >= 1 && (e.episode_number as u64) == (k + 1) as u64;
        if !fits {
            from_one = false;
        }
    }
    let evidence_last = if order.len() > 0 {
        let e = &episodes[order[order.len() - 1]];
        assert(p.last() == order@[order@.len() - 1] as int);
        match e.finale_type {
            Some(crate::sonarr::FinaleType::Season) => true,
            Some(crate::sonarr::FinaleType::Series) => true,
            _ => false,
        }
    } else {
        false
    };
    let evidence = evidence_last || later_season_listed(episodes, show.id, season)
        || series.status == SeriesStatus::Ended;
    let scan = scan_season(episodes, show.id, season);
    let confirmed = season > 0 && from_one && evidence && scan.all_dated;
    let final_air_at = if confirmed {
        scan.latest
    } else {
        None
    };
    let mut listed: Vec<EpisodeProgress> = Vec::new();
    for k in 0..order.len()
        invariant
            eps == episodes@,
            p == positions(order@),
            forall|x: int| 0 <= x < order@.len() ==> (#[trigger] order@[x]) < eps.len(),
            listed@.map_values(|e: EpisodeProgress| e@) == p.take(k as int).map_values(
                |j: int| episode_progress(eps[j], covered@),
            ),
    {
        let e = &episodes[order[k]];
        assert(p[k as int] == order@[k as int] as int);
        let entry = EpisodeProgress {
            id: e.id,
            number: e.episode_number,
            title: e.title.clone(),
            air_at: e.air_date_utc,
            has_file: e.has_file,
            monitored: e.monitored,
            notified: covered.contains(&e.id),
        };
        assert(entry@ == episode_progress(eps[p[k as int]], covered@));
        let ghost before = listed@;
        listed.push(entry);
        proof {
            let f = |e: EpisodeProgress| e@;
            let g = |j: int| episode_progress(eps[j], covered@);
            assert(p.len() == order@.len());
            assert(before.map_values(f).len() == p.take(k as int).map_values(g).len());
            assert(listed@ =~= before.push(entry));
            assert forall|x: int| 0 <= x < k + 1 implies #[trigger] listed@.map_values(f)[x]
                == p.take(k + 1).map_values(g)[x] by {
                if x < k {
                    assert(listed@[x] == before[x]);
                    assert(before.map_values(f)[x] == p.take(k as int).map_values(g)[x]);
                } else {
                    assert(listed@[x] == entry);
                }
            }
            assert(listed@.map_values(f) =~= p.take(k + 1).map_values(g));
        }
    }
    assert(p.take(order.len() as int) =~= p);
    SeasonProgress {
        number: season,
        counts,
        completion_confirmed: confirmed,
        final_air_at,
        episodes: listed,
        notification: earliest_of_season(cands, season),
    }
}

/// Projects a show's airing, library and notification progress.
///
/// `covered` holds the episodes already covered by a delivery attempt, and
/// `deliveries` the delivery record (key and state) of each stored notification.
pub fn build(
    show: Show,
    series: &Series,
    episodes: &[Episode],
    tracking_since: i64,
    now: i64,
    covered: &HashSet<i64>,
    deliveries: &[(String, String)],
    webhook_disabled: bool,
    webhook_retry_at: i64,
) -> (r: Progress)
    ensures
        r.show == show,
        r.status == series.status,
        r.monitored == series.monitored,
        r.as_of == now,
        r.tracking_since == tracking_since,
        r.counts == counts_where(episodes@, regular_episode(show.id), now),
        match r.notification_block {
            Some(b) => notification_block(show, *series, webhook_disabled) == Some(b@),
            None => notification_block(show, *series, webhook_disabled) is None,
        },
        match r.next_release {
            Some(rel) => next_release_index(episodes@, show.id, now) matches Some(k) && rel@
                == release_of(episodes@[k]),
            None => next_release_index(episodes@, show.id, now) is None,
        },
        exists|v: Seq<PlanView>|
            #[trigger] is_plan(*series, episodes@, tracking_since, v) && {
                let cands = candidates(
                    show,
                    episodes@,
                    v,
                    now,
                    covered@,
                    deliveries@,
                    webhook_retry_at,
                );
                &&& r.next_notification == most_urgent(cands)
                &&& is_season_listing(
                    r.seasons@.map_values(|s: SeasonProgress| s@),
                    show,
                    *series,
                    episodes@,
                    now,
                    covered@,
                    cands,
                )
            },
{
    let ghost eps = episodes@;
    let notification_block = if !show.active {
        Some("This show has been removed from Sonarr.".to_owned())
    } else if show.excluded {
        Some("Notifications are excluded for this show.".to_owned())
    } else if !series.monitored {
        Some("This series is not monitored in Sonarr.".to_owned())
    } else if webhook_disabled {
        Some("Discord delivery is paused. Resume it from Overview.".to_owned())
    } else {
        None
    };
    let plans = plan(series, episodes, tracking_since);
    let ghost v = plan_views(plans@);
    let cands = collect_candidates(
        &show,
        episodes,
        &plans,
        now,
        covered,
        deliveries,
        webhook_retry_at,
    );
    let ghost cs = cands@;
    let mut seasons: Vec<SeasonProgress> = Vec::new();
    let mut last: Option<i64> = None;
    loop
        invariant
            eps == episodes@,
            cs == cands@,
            cs == candidates(show, eps, v, now, covered@, deliveries@, webhook_retry_at),
            last is None ==> seasons@.len() == 0,
            last matches Some(l) ==> seasons@.len() > 0 && seasons@.last().number == l,
            forall|a: int, b: int|
                0 <= a < b < seasons@.len() ==> (#[trigger] seasons@[a]).number < (
                #[trigger] seasons@[b]).number,
            forall|i: int|
                0 <= i < seasons@.len() ==> is_season_entry(
                    (#[trigger] seasons@[i])@,
                    show,
                    *series,
                    eps,
                    now,
                    covered@,
                    cs,
                ),
            forall|j: int|
                0 <= j < eps.len() && (#[trigger] eps[j]).series_id == show.id && (
                last matches Some(l) && eps[j].season_number <= l) ==> exists|i: int|
                    0 <= i < seasons@.len() && (#[trigger] seasons@[i]).number
                        == eps[j].season_number,
        ensures
            forall|j: int|
                0 <= j < eps.len() && (#[trigger] eps[j]).series_id == show.id ==> exists|i: int|
                    0 <= i < seasons@.len() && (#[trigger] seasons@[i]).number
                        == eps[j].season_number,
            forall|a: int, b: int|
                0 <= a < b < seasons@.len() ==> (#[trigger] seasons@[a]).number < (
                #[trigger] seasons@[b]).number,
            forall|i: int|
                0 <= i < seasons@.len() ==> is_season_entry(
                    (#[trigger] seasons@[i])@,
                    show,
                    *series,
                    eps,
                    now,
                    covered@,
                    cs,
                ),
        decreases
            (if last is None { 1int } else { 0int }) + i64::MAX - (match last {
                Some(l) => l as int,
                None => i64::MIN as int,
            }),
    {
        let next = next_group(episodes, show.id, last);
        match next {
            None => {
                proof {
                    assert forall|j: int|
                        0 <= j < eps.len() && (#[trigger] eps[j]).series_id == show.id implies exists|i: int|
                        0 <= i < seasons@.len() && (#[trigger] seasons@[i]).number
                            == eps[j].season_number by {
                        assert(last matches Some(l) && eps[j].season_number <= l);
                    }
                }
                break ;
            },
            Some(season) => {
                let order = listing_of(episodes, show.id, season);
                proof {
                    let i = choose|i: int|
                        0 <= i < eps.len() && in_season(#[trigger] eps[i], show.id, season);
                    let k = choose|k: int|
                        0 <= k < positions(order@).len() && #[trigger] positions(order@)[k] == i;
                }
                let entry = season_progress_of(
                    &show,
                    series,
                    episodes,
                    now,
                    covered,
                    &cands,
                    season,
                    &order,
                );
                let ghost before = seasons@;
                seasons.push(entry);
                proof {
                    assert(seasons@[seasons@.len() - 1] == entry);
                    assert forall|i: int| 0 <= i < seasons@.len() implies is_season_entry(
                        (#[trigger] seasons@[i])@,
                        show,
                        *series,
                        eps,
                        now,
                        covered@,
                        cs,
                    ) by {
                        if i < before.len() {
                            assert(seasons@[i] == before[i]);
                        } else {
                            assert(is_listing(eps, show.id, season, positions(order@)));
                        }
                    }
                    assert forall|j: int|
                        0 <= j < eps.len() && (#[trigger] eps[j]).series_id == show.id
                            && eps[j].season_number <= season implies exists|i: int|
                        0 <= i < seasons@.len() && (#[trigger] seasons@[i]).number
                            == eps[j].season_number by {
                        if eps[j].season_number == season {
                            assert(seasons@[seasons@.len() - 1].number == season);
                        } else {
                            let i = choose|i: int|
                                0 <= i < before.len() && (#[trigger] before[i]).number
                                    == eps[j].season_number;
                            assert(seasons@[i] == before[i]);
                        }
                    }
                }
                last = Some(season);
            },
        }
    }
    let counts = count_episodes(episodes, show.id, None, now);
    let next_release = next_release_of(episodes, show.id, now);
    let next_notification = most_urgent_of(&cands);
    proof {
        let sv = seasons@.map_values(|s: SeasonProgress| s@);
        assert forall|i: int| 0 <= i < sv.len() implies is_season_entry(
            #[trigger] sv[i],
            show,
            *series,
            eps,
            now,
            covered@,
            cs,
        ) by {
            assert(sv[i] == seasons@[i]@);
        }
        assert forall|a: int, b: int| 0 <= a < b < sv.len() implies (#[trigger] sv[a]).number < (
        #[trigger] sv[b]).number by {
            assert(sv[a] == seasons@[a]@);
            assert(sv[b] == seasons@[b]@);
        }
        assert forall|j: int| 0 <= j < eps.len() && (#[trigger] eps[j]).series_id == show.id implies exists|i: int|
            0 <= i < sv.len() && (#[trigger] sv[i]).number == eps[j].season_number by {
            let i = choose|i: int|
                0 <= i < seasons@.len() && (#[trigger] seasons@[i]).number == eps[j].season_number;
            assert(sv[i] == seasons@[i]@);
        }
        assert(is_plan(*series, eps, tracking_since, v));
    }
    Progress {
        show,
        status: series.status,
        monitored: series.monitored,
        as_of: now,
        counts,
        seasons,
        next_release,
        next_notification,
        notification_block,
        tracking_since,
    }
}

proof fn lemma_earliest_for_season(cands: Seq<NextNotification>, season: i64)
    ensures
        earliest_for_season(cands, season) matches Some(n) ==> n.season == season && (exists|k: int|
            0 <= k < cands.len() && #[trigger] cands[k] == n) && (forall|k: int|
            0 <= k < cands.len() && (#[trigger] cands[k]).season == season ==> n.due_at
                <= cands[k].due_at),
        earliest_for_season(cands, season) is None ==> forall|k: int|
            0 <= k < cands.len() ==> (#[trigger] cands[k]).season != season,
    decreases cands.len(),
{
    if cands.len() > 0 {
        let d = cands.drop_last();
        lemma_earliest_for_season(d, season);
        let l = cands.len() - 1;
        assert(cands[l] == cands.last());
        assert forall|k: int| 0 <= k < l implies cands[k] == #[trigger] d[k] by {}
        let c = cands.last();
        let r = earliest_for_season(cands, season);
        assert forall|k: int| 0 <= k < cands.len() && (#[trigger] cands[k]).season == season
            implies r is Some && r->0.due_at <= cands[k].due_at by {
            if k < l {
                assert(d[k] == cands[k]);
            }
        }
        assert forall|k: int| 0 <= k < cands.len() && r is None implies (#[trigger] cands[k]).season != season by {
            if k < l {
                assert(d[k] == cands[k]);
            }
        }
        if let Some(n) = r {
            if c.season == season && (earliest_for_season(d, season) is None || c.due_at
                < earliest_for_season(d, season)->0.due_at) {
                assert(cands[l] == n);
            } else {
                let k = choose|k: int| 0 <= k < d.len() && #[trigger] d[k] == n;
                assert(cands[k] == d[k]);
            }
        }
    }
}

/// The notification shown for a season is that season's soonest candidate:
/// each season entry names a candidate of its own season due no later than any
/// other candidate of that season, and names none only when the season has no
/// candidate.
pub proof fn season_notification_is_soonest(
    seasons: Seq<SeasonProgressView>,
    show: Show,
    series: Series,
    eps: Seq<Episode>,
    now: i64,
    covered: Set<i64>,
    cands: Seq<NextNotification>,
)
    requires
        is_season_listing(seasons, show, series, eps, now, covered, cands),
    ensures
        forall|i: int|
            0 <= i < seasons.len() ==> match (#[trigger] seasons[i]).notification {
                Some(n) => n.season == seasons[i].number && (exists|k: int|
                    0 <= k < cands.len() && #[trigger] cands[k] == n) && (forall|k: int|
                    0 <= k < cands.len() && (#[trigger] cands[k]).season == seasons[i].number
                        ==> n.due_at <= cands[k].due_at),
                None => forall|k: int|
                    0 <= k < cands.len() ==> (#[trigger] cands[k]).season != seasons[i].number,
            },
{
    assert forall|i: int| 0 <= i < seasons.len() implies match (#[trigger] seasons[i]).notification {
        Some(n) => n.season == seasons[i].number && (exists|k: int|
            0 <= k < cands.len() && #[trigger] cands[k] == n) && (forall|k: int|
            0 <= k < cands.len() && (#[trigger] cands[k]).season == seasons[i].number
                ==> n.due_at <= cands[k].due_at),
        None => forall|k: int|
            0 <= k < cands.len() ==> (#[trigger] cands[k]).season != seasons[i].number,
    } by {
        assert(is_season_entry(seasons[i], show, series, eps, now, covered, cands));
        let order = choose|order: Seq<int>|
            is_listing(eps, show.id, seasons[i].number, order) && order.len() > 0
                && seasons[i] == season_progress(
                show,
                series,
                eps,
                now,
                covered,
                cands,
                seasons[i].number,
                order,
            );
        lemma_earliest_for_season(cands, seasons[i].number);
    }
}

/// The overall next notification is the most urgent candidate: it is one of
/// the candidates, no candidate held for confirmation is preferred to a
/// confirmed one, and among candidates alike in that respect none is due
/// earlier. There is none only when there is no candidate.
pub proof fn next_notification_is_most_urgent(cands: Seq<NextNotification>)
    ensures
        most_urgent(cands) matches Some(n) ==> (exists|k: int| 0 <= k < cands.len() && #[trigger] cands[k] == n)
            && (forall|k: int|
            0 <= k < cands.len() ==> (n.awaiting_confirmation ==> (#[trigger] cands[k]).awaiting_confirmation)
                && (n.awaiting_confirmation == cands[k].awaiting_confirmation ==> n.due_at
                <= cands[k].due_at)),
        most_urgent(cands) is None <==> cands.len() == 0,
    decreases cands.len(),
{
    if cands.len() > 0 {
        let d = cands.drop_last();
        next_notification_is_most_urgent(d);
        let l = cands.len() - 1;
        let c = cands.last();
        assert(cands[l] == c);
        assert forall|k: int| 0 <= k < l implies cands[k] == #[trigger] d[k] by {}
        let r = most_urgent(cands);
        assert(r is Some);
        let n = r->0;
        if most_urgent(d) is None || more_urgent(c, most_urgent(d)->0) {
            assert(n == c);
            if let Some(b) = most_urgent(d) {
                assert forall|k: int| 0 <= k < cands.len() implies (n.awaiting_confirmation
                    ==> (#[trigger] cands[k]).awaiting_confirmation) && (n.awaiting_confirmation
                    == cands[k].awaiting_confirmation ==> n.due_at <= cands[k].due_at) by {
                    if k < l {
                        assert(d[k] == cands[k]);
                    }
                }
            } else {
                assert(d.len() == 0);
            }
        } else {
            let b = most_urgent(d)->0;
            let k0 = choose|k: int| 0 <= k < d.len() && #[trigger] d[k] == b;
            assert(cands[k0] == d[k0]);
            assert forall|k: int| 0 <= k < cands.len() implies (n.awaiting_confirmation
                ==> (#[trigger] cands[k]).awaiting_confirmation) && (n.awaiting_confirmation
                == cands[k].awaiting_confirmation ==> n.due_at <= cands[k].due_at) by {
                if k < l {
                    assert(d[k] == cands[k]);
                }
            }
        }
    }
}

} // verus!
