//! The delivery ledger: settings, shows, planned and attempted notifications,
//! and the episodes each delivery covers. Every rule that decides what may be
//! sent, and when, is an operation on this store; SQLite only persists it.
use vstd::prelude::*;
use crate::api::NotificationView;
use crate::model::{EmbedColors, NotificationMode, PlannedNotification, Show};
use crate::progress::positions;
use crate::text::{chars_of, push_str, same_text};

verus! {

/// Delivery state of a stored notification.
#[derive(Clone, Copy, Debug, PartialEq, Eq, Structural)]
pub enum NotificationState {
    /// Planned; may still be sent.
    Pending,
    /// Reserved for a request in flight (or interrupted); never sent again automatically.
    Sending,
    /// Discord accepted it.
    Sent,
    /// The outcome is unknown; never sent again automatically.
    Uncertain,
    /// Discord refused it.
    Failed,
    /// Every episode it names was already announced.
    Covered,
}

/// The stored name of a notification state.
pub open spec fn state_text(s: NotificationState) -> Seq<char> {
    match s {
        NotificationState::Pending => "pending"@,
        NotificationState::Sending => "sending"@,
        NotificationState::Sent => "sent"@,
        NotificationState::Uncertain => "uncertain"@,
        NotificationState::Failed => "failed"@,
        NotificationState::Covered => "covered"@,
    }
}

impl NotificationState {
    /// The stored name of the state.
    pub fn as_str(self) -> (s: &'static str)
        ensures
            s@ == state_text(self),
    {
        match self {
            NotificationState::Pending => "pending",
            NotificationState::Sending => "sending",
            NotificationState::Sent => "sent",
            NotificationState::Uncertain => "uncertain",
            NotificationState::Failed => "failed",
            NotificationState::Covered => "covered",
        }
    }

    /// Reads a stored state name; any other text is refused.
    pub fn parse(value: &str) -> (r: Option<NotificationState>)
        ensures
            r matches Some(s) ==> state_text(s) == value@,
            r is None ==> forall|s: NotificationState| state_text(s) != value@,
    {
        if same_text(value, "pending") {
            Some(NotificationState::Pending)
        } else if same_text(value, "sending") {
            Some(NotificationState::Sending)
        } else if same_text(value, "sent") {
            Some(NotificationState::Sent)
        } else if same_text(value, "uncertain") {
            Some(NotificationState::Uncertain)
        } else if same_text(value, "failed") {
            Some(NotificationState::Failed)
        } else if same_text(value, "covered") {
            Some(NotificationState::Covered)
        } else {
            None
        }
    }
}

/// How a reserved delivery attempt ended.
#[derive(Clone, Copy, Debug, PartialEq, Eq, Structural)]
pub enum DeliveryState {
    Sent,
    Uncertain,
    Failed,
}

/// The notification state recorded for a finished attempt.
pub open spec fn finished_state(d: DeliveryState) -> NotificationState {
    match d {
        DeliveryState::Sent => NotificationState::Sent,
        DeliveryState::Uncertain => NotificationState::Uncertain,
        DeliveryState::Failed => NotificationState::Failed,
    }
}

impl DeliveryState {
    /// The stored name of the state.
    pub fn as_str(self) -> (s: &'static str)
        ensures
            s@ == state_text(finished_state(self)),
    {
        match self {
            DeliveryState::Sent => "sent",
            DeliveryState::Uncertain => "uncertain",
            DeliveryState::Failed => "failed",
        }
    }
}

/// The single settings row.
#[derive(Clone, Copy, Debug, PartialEq, Eq, Structural)]
pub struct Settings {
    /// Nothing that aired before this time (Unix seconds) is announced.
    pub tracking_since: i64,
    pub default_mode: NotificationMode,
    pub webhook_disabled: bool,
    /// No webhook request before this time (Unix seconds).
    pub webhook_retry_at: i64,
    pub colors: EmbedColors,
}

/// A stored notification.
#[derive(Clone, Debug)]
pub struct NotificationRow {
    pub key: String,
    pub series_id: i64,
    pub mode: NotificationMode,
    pub season: i64,
    pub episode_id: Option<i64>,
    pub due_at: i64,
    pub content: String,
    pub state: NotificationState,
    pub retry_at: i64,
    pub attempted_at: Option<i64>,
    pub sent_at: Option<i64>,
    pub awaiting_confirmation: bool,
}

/// An episode announced by the notification `notification_key`.
#[derive(Clone, Debug)]
pub struct CoverRow {
    pub episode_id: i64,
    pub notification_key: String,
}

/// The whole ledger.
#[derive(Clone, Debug)]
pub struct Store {
    pub settings: Settings,
    pub shows: Vec<Show>,
    pub notifications: Vec<NotificationRow>,
    pub covered: Vec<CoverRow>,
}

/// The ledger as values.
pub struct StoreView {
    pub settings: Settings,
    pub shows: Seq<Show>,
    pub notifications: Seq<NotificationRow>,
    pub covered: Seq<CoverRow>,
}

impl View for Store {
    type V = StoreView;

    open spec fn view(&self) -> StoreView {
        StoreView {
            settings: self.settings,
            shows: self.shows@,
            notifications: self.notifications@,
            covered: self.covered@,
        }
    }
}

// ---------------------------------------------------------------------
// Lookups
// ---------------------------------------------------------------------

/// Show identifiers, notification keys and covered episodes are each unique.
pub open spec fn well_formed(v: StoreView) -> bool {
    &&& forall|i: int, j: int|
        0 <= i < j < v.shows.len() ==> (#[trigger] v.shows[i]).id != (#[trigger] v.shows[j]).id
    &&& forall|i: int, j: int|
        0 <= i < j < v.notifications.len() ==> (#[trigger] v.notifications[i]).key@ != (
        #[trigger] v.notifications[j]).key@
    &&& forall|i: int, j: int|
        0 <= i < j < v.covered.len() ==> (#[trigger] v.covered[i]).episode_id != (
        #[trigger] v.covered[j]).episode_id
}

/// Position of the show `id`, if stored.
pub open spec fn show_at(shows: Seq<Show>, id: i64) -> Option<int> {
    if exists|i: int| 0 <= i < shows.len() && (#[trigger] shows[i]).id == id {
        Some(choose|i: int| 0 <= i < shows.len() && (#[trigger] shows[i]).id == id)
    } else {
        None
    }
}

/// Position of the notification `key`, if stored.
pub open spec fn note_at(rows: Seq<NotificationRow>, key: Seq<char>) -> Option<int> {
    if exists|i: int| 0 <= i < rows.len() && (#[trigger] rows[i]).key@ == key {
        Some(choose|i: int| 0 <= i < rows.len() && (#[trigger] rows[i]).key@ == key)
    } else {
        None
    }
}

/// Whether an episode has been announced (or is being announced).
pub open spec fn is_covered(covered: Seq<CoverRow>, episode_id: i64) -> bool {
    exists|i: int| 0 <= i < covered.len() && (#[trigger] covered[i]).episode_id == episode_id
}

proof fn lemma_show_at(shows: Seq<Show>, j: int)
    requires
        0 <= j < shows.len(),
        forall|a: int, b: int|
            0 <= a < b < shows.len() ==> (#[trigger] shows[a]).id != (#[trigger] shows[b]).id,
    ensures
        show_at(shows, shows[j].id) == Some(j),
{
    let id = shows[j].id;
    assert(shows[j].id == id);
    let c = choose|i: int| 0 <= i < shows.len() && (#[trigger] shows[i]).id == id;
    if c < j {
        assert(shows[c].id != shows[j].id);
    } else if j < c {
        assert(shows[j].id != shows[c].id);
    }
}

proof fn lemma_note_at(rows: Seq<NotificationRow>, j: int)
    requires
        0 <= j < rows.len(),
        forall|a: int, b: int|
            0 <= a < b < rows.len() ==> (#[trigger] rows[a]).key@ != (#[trigger] rows[b]).key@,
    ensures
        note_at(rows, rows[j].key@) == Some(j),
{
    let key = rows[j].key@;
    assert(rows[j].key@ == key);
    let c = choose|i: int| 0 <= i < rows.len() && (#[trigger] rows[i]).key@ == key;
    if c < j {
        assert(rows[c].key@ != rows[j].key@);
    } else if j < c {
        assert(rows[j].key@ != rows[c].key@);
    }
}

fn find_show(shows: &Vec<Show>, id: i64) -> (r: Option<usize>)
    requires
        forall|a: int, b: int|
            0 <= a < b < shows@.len() ==> (#[trigger] shows@[a]).id != (#[trigger] shows@[b]).id,
    ensures
        match r {
            Some(i) => i < shows@.len() && show_at(shows@, id) == Some(i as int),
            None => show_at(shows@, id) is None,
        },
{
    for i in 0..shows.len()
        invariant
            forall|a: int, b: int|
                0 <= a < b < shows@.len() ==> (#[trigger] shows@[a]).id != (#[trigger] shows@[b]).id,
            forall|j: int| 0 <= j < i ==> (#[trigger] shows@[j]).id != id,
    {
        if shows[i].id == id {
            proof {
                lemma_show_at(shows@, i as int);
            }
            return Some(i);
        }
    }
    None
}

fn find_note(rows: &Vec<NotificationRow>, key: &String) -> (r: Option<usize>)
    requires
        forall|a: int, b: int|
            0 <= a < b < rows@.len() ==> (#[trigger] rows@[a]).key@ != (#[trigger] rows@[b]).key@,
    ensures
        match r {
            Some(i) => i < rows@.len() && note_at(rows@, key@) == Some(i as int),
            None => note_at(rows@, key@) is None,
        },
{
    for i in 0..rows.len()
        invariant
            forall|a: int, b: int|
                0 <= a < b < rows@.len() ==> (#[trigger] rows@[a]).key@ != (#[trigger] rows@[b]).key@,
            forall|j: int| 0 <= j < i ==> (#[trigger] rows@[j]).key@ != key@,
    {
        if rows[i].key == *key {
            proof {
                lemma_note_at(rows@, i as int);
            }
            return Some(i);
        }
    }
    None
}

fn copy_show(s: &Show) -> (r: Show)
    ensures
        r == *s,
{
    Show {
        id: s.id,
        title: s.title.clone(),
        excluded: s.excluded,
        active: s.active,
        mode: s.mode,
        mode_overridden: s.mode_overridden,
    }
}

// ---------------------------------------------------------------------
// Show policy
// ---------------------------------------------------------------------

/// Exclusion: the show keeps every other setting.
pub open spec fn spec_set_excluded(v: StoreView, id: i64, excluded: bool) -> (StoreView, bool) {
    match show_at(v.shows, id) {
        Some(i) => (
            StoreView { shows: v.shows.update(i, Show { excluded: excluded, ..v.shows[i] }), ..v },
            true,
        ),
        None => (v, false),
    }
}

/// A show-specific mode overrides the default.
pub open spec fn spec_set_show_mode(v: StoreView, id: i64, mode: NotificationMode) -> (StoreView, bool) {
    match show_at(v.shows, id) {
        Some(i) => (
            StoreView {
                shows: v.shows.update(
                    i,
                    Show { mode: mode, mode_overridden: true, ..v.shows[i] },
                ),
                ..v
            },
            true,
        ),
        None => (v, false),
    }
}

/// The show follows the default mode again.
pub open spec fn spec_reset_show_mode(v: StoreView, id: i64) -> (StoreView, bool) {
    match show_at(v.shows, id) {
        Some(i) => (
            StoreView {
                shows: v.shows.update(
                    i,
                    Show { mode: v.settings.default_mode, mode_overridden: false, ..v.shows[i] },
                ),
                ..v
            },
            true,
        ),
        None => (v, false),
    }
}

/// A new default mode, applied to every show without its own mode.
pub open spec fn spec_set_default_mode(v: StoreView, mode: NotificationMode) -> StoreView {
    StoreView {
        settings: Settings { default_mode: mode, ..v.settings },
        shows: v.shows.map_values(
            |s: Show|
                if s.mode_overridden {
                    s
                } else {
                    Show { mode: mode, ..s }
                },
        ),
        ..v
    }
}

/// A new default mode for every show, removing all show-specific modes.
pub open spec fn spec_reset_all_show_modes(v: StoreView, mode: NotificationMode) -> StoreView {
    StoreView {
        settings: Settings { default_mode: mode, ..v.settings },
        shows: v.shows.map_values(|s: Show| Show { mode: mode, mode_overridden: false, ..s }),
        ..v
    }
}

/// Records a show seen in Sonarr: a new show takes the default mode; a known one
/// keeps its exclusion and mode, takes the new title and becomes active.
pub open spec fn upsert_show(shows: Seq<Show>, id: i64, title: String, default_mode: NotificationMode) -> Seq<Show> {
    match show_at(shows, id) {
        Some(i) => shows.update(i, Show { title: title, active: true, ..shows[i] }),
        None => shows.push(
            Show {
                id: id,
                title: title,
                excluded: false,
                active: true,
                mode: default_mode,
                mode_overridden: false,
            },
        ),
    }
}

/// Records Sonarr's series list, in order.
pub open spec fn upsert_shows(shows: Seq<Show>, seen: Seq<(i64, String)>, default_mode: NotificationMode) -> Seq<Show>
    decreases seen.len(),
{
    if seen.len() == 0 {
        shows
    } else {
        let before = upsert_shows(shows, seen.drop_last(), default_mode);
        upsert_show(before, seen.last().0, seen.last().1, default_mode)
    }
}

/// Synchronises shows with Sonarr: every stored show becomes inactive, then
/// each listed series is recorded.
pub open spec fn spec_sync_shows(v: StoreView, seen: Seq<(i64, String)>) -> StoreView {
    StoreView {
        shows: upsert_shows(
            v.shows.map_values(|s: Show| Show { active: false, ..s }),
            seen,
            v.settings.default_mode,
        ),
        ..v
    }
}

proof fn lemma_upsert_keeps_ids_distinct(shows: Seq<Show>, id: i64, title: String, mode: NotificationMode)
    requires
        forall|a: int, b: int|
            0 <= a < b < shows.len() ==> (#[trigger] shows[a]).id != (#[trigger] shows[b]).id,
    ensures
        forall|a: int, b: int|
            0 <= a < b < upsert_show(shows, id, title, mode).len() ==> (#[trigger] upsert_show(
                shows,
                id,
                title,
                mode,
            )[a]).id != (#[trigger] upsert_show(shows, id, title, mode)[b]).id,
{
    let r = upsert_show(shows, id, title, mode);
    match show_at(shows, id) {
        Some(i) => {
            assert forall|a: int, b: int| 0 <= a < b < r.len() implies (#[trigger] r[a]).id != (
            #[trigger] r[b]).id by {
                assert(r[a].id == shows[a].id);
                assert(r[b].id == shows[b].id);
            }
        },
        None => {
            assert forall|a: int, b: int| 0 <= a < b < r.len() implies (#[trigger] r[a]).id != (
            #[trigger] r[b]).id by {
                if b == shows.len() {
                    assert(shows[a].id != id);
                } else {
                    assert(r[a] == shows[a]);
                    assert(r[b] == shows[b]);
                }
            }
        },
    }
}


// ---------------------------------------------------------------------
// Text order of keys
// ---------------------------------------------------------------------

/// Lexicographic order of texts by code point (SQLite's binary collation on UTF-8).
pub open spec fn text_before(a: Seq<char>, b: Seq<char>) -> bool
    decreases a.len(),
{
    if a.len() == 0 {
        b.len() > 0
    } else if b.len() == 0 {
        false
    } else if a[0] != b[0] {
        (a[0] as int) < (b[0] as int)
    } else {
        text_before(a.drop_first(), b.drop_first())
    }
}

pub proof fn lemma_text_before_asymmetric(a: Seq<char>, b: Seq<char>)
    ensures
        !(text_before(a, b) && text_before(b, a)),
    decreases a.len(),
{
    if a.len() > 0 && b.len() > 0 && a[0] == b[0] {
        lemma_text_before_asymmetric(a.drop_first(), b.drop_first());
    }
}

pub proof fn lemma_text_before_total(a: Seq<char>, b: Seq<char>)
    ensures
        a != b ==> text_before(a, b) || text_before(b, a),
    decreases a.len(),
{
    if a.len() > 0 && b.len() > 0 && a[0] == b[0] {
        lemma_text_before_total(a.drop_first(), b.drop_first());
        if a.drop_first() == b.drop_first() {
            assert(a =~= seq![a[0]] + a.drop_first());
            assert(b =~= seq![b[0]] + b.drop_first());
        }
    } else if a.len() == 0 && b.len() == 0 {
        assert(a =~= b);
    }
}

pub proof fn lemma_text_before_transitive(a: Seq<char>, b: Seq<char>, c: Seq<char>)
    requires
        text_before(a, b),
        text_before(b, c),
    ensures
        text_before(a, c),
    decreases a.len(),
{
    if a.len() > 0 && b.len() > 0 && c.len() > 0 && a[0] == b[0] && b[0] == c[0] {
        lemma_text_before_transitive(a.drop_first(), b.drop_first(), c.drop_first());
    }
}

/// `text_before`, over strings.
pub fn text_less(a: &str, b: &str) -> (r: bool)
    ensures
        r == text_before(a@, b@),
{
    let x = chars_of(a);
    let y = chars_of(b);
    let mut i: usize = 0;
    assert(x@.skip(0) =~= x@);
    assert(y@.skip(0) =~= y@);
    while i < x.len() && i < y.len()
        invariant
            x@ == a@,
            y@ == b@,
            i <= x@.len(),
            i <= y@.len(),
            text_before(a@, b@) == text_before(x@.skip(i as int), y@.skip(i as int)),
        decreases x@.len() - i,
    {
        let ghost xs = x@.skip(i as int);
        let ghost ys = y@.skip(i as int);
        assert(xs[0] == x@[i as int]);
        assert(ys[0] == y@[i as int]);
        if x[i] != y[i] {
            return x[i] < y[i];
        }
        assert(xs.drop_first() =~= x@.skip(i + 1));
        assert(ys.drop_first() =~= y@.skip(i + 1));
        i = i + 1;
    }
    i == x.len() && i < y.len()
}

// ---------------------------------------------------------------------
// Notifications
// ---------------------------------------------------------------------

/// The later of three times.
pub open spec fn latest_of(a: i64, b: i64, c: i64) -> i64 {
    let ab = if a >= b { a } else { b };
    if ab >= c { ab } else { c }
}

/// Whether the notification at `i` may be delivered once it is due: pending,
/// not held for finale confirmation, for an active, included show in the
/// matching mode, with the webhook enabled, and not an episode already announced.
pub open spec fn deliverable(v: StoreView, i: int) -> bool {
    let r = v.notifications[i];
    &&& 0 <= i < v.notifications.len()
    &&& r.state == NotificationState::Pending
    &&& !r.awaiting_confirmation
    &&& show_at(v.shows, r.series_id) is Some
    &&& v.shows[show_at(v.shows, r.series_id)->0].mode == r.mode
    &&& !v.shows[show_at(v.shows, r.series_id)->0].excluded
    &&& v.shows[show_at(v.shows, r.series_id)->0].active
    &&& !v.settings.webhook_disabled
    &&& (r.episode_id is Some ==> !is_covered(v.covered, r.episode_id->0))
}

/// When the notification at `i` may be sent: its due time, its own retry time
/// and the webhook's retry time, whichever is latest.
pub open spec fn send_time(v: StoreView, i: int) -> i64 {
    latest_of(
        v.notifications[i].due_at,
        v.notifications[i].retry_at,
        v.settings.webhook_retry_at,
    )
}

/// Whether notification `i` comes before `j`: earlier send time, then key order.
pub open spec fn goes_before(v: StoreView, i: int, j: int) -> bool {
    ||| send_time(v, i) < send_time(v, j)
    ||| send_time(v, i) == send_time(v, j) && text_before(
        v.notifications[i].key@,
        v.notifications[j].key@,
    )
}

/// Whether `i` is the next notification to deliver.
pub open spec fn is_next_due(v: StoreView, i: int) -> bool {
    &&& deliverable(v, i)
    &&& forall|j: int| #[trigger] deliverable(v, j) && j != i ==> goes_before(v, i, j)
}

/// The next notification to deliver: its key, series and send time.
pub open spec fn spec_next_due(v: StoreView) -> Option<(Seq<char>, i64, i64)> {
    if exists|i: int| is_next_due(v, i) {
        let i = choose|i: int| is_next_due(v, i);
        Some((v.notifications[i].key@, v.notifications[i].series_id, send_time(v, i)))
    } else {
        None
    }
}

/// Whether the notification `r` may be reserved at `now`.
pub open spec fn claimable(v: StoreView, r: NotificationRow, now: i64) -> bool {
    &&& r.state == NotificationState::Pending
    &&& !r.awaiting_confirmation
    &&& r.due_at <= now
    &&& r.retry_at <= now
    &&& !v.settings.webhook_disabled
    &&& v.settings.webhook_retry_at <= now
    &&& show_at(v.shows, r.series_id) is Some
    &&& v.shows[show_at(v.shows, r.series_id)->0].mode == r.mode
    &&& !v.shows[show_at(v.shows, r.series_id)->0].excluded
    &&& v.shows[show_at(v.shows, r.series_id)->0].active
}

/// Records each listed episode as announced by `key`, unless it already is.
pub open spec fn add_covers(covered: Seq<CoverRow>, ids: Seq<i64>, key: String) -> Seq<CoverRow>
    decreases ids.len(),
{
    if ids.len() == 0 {
        covered
    } else {
        let before = add_covers(covered, ids.drop_last(), key);
        if is_covered(before, ids.last()) {
            before
        } else {
            before.push(CoverRow { episode_id: ids.last(), notification_key: key })
        }
    }
}

/// Reserves `plan` for delivery at `now`. The reservation is recorded, with the
/// episodes it announces, before any request is made. When every episode was
/// already announced, the notification is marked covered and nothing is sent.
pub open spec fn spec_claim(v: StoreView, plan: PlannedNotification, now: i64) -> (StoreView, bool) {
    match note_at(v.notifications, plan.key@) {
        None => (v, false),
        Some(i) => {
            let r = v.notifications[i];
            if !claimable(v, r, now) {
                (v, false)
            } else {
                let covered = add_covers(v.covered, plan.episode_ids@, plan.key);
                let sending = NotificationRow {
                    state: NotificationState::Sending,
                    attempted_at: Some(now),
                    ..r
                };
                if covered.len() == v.covered.len() {
                    (
                        StoreView {
                            notifications: v.notifications.update(
                                i,
                                NotificationRow { state: NotificationState::Covered, ..sending },
                            ),
                            covered: covered,
                            ..v
                        },
                        false,
                    )
                } else {
                    (StoreView { notifications: v.notifications.update(i, sending), covered: covered, ..v }, true)
                }
            }
        },
    }
}

/// Records how a reserved attempt ended; only a reserved notification changes.
pub open spec fn spec_finish(v: StoreView, key: Seq<char>, outcome: DeliveryState, now: i64) -> StoreView {
    match note_at(v.notifications, key) {
        Some(i) => if v.notifications[i].state == NotificationState::Sending {
            StoreView {
                notifications: v.notifications.update(
                    i,
                    NotificationRow {
                        state: finished_state(outcome),
                        sent_at: if outcome == DeliveryState::Sent {
                            Some(now)
                        } else {
                            None
                        },
                        ..v.notifications[i]
                    },
                ),
                ..v
            }
        } else {
            v
        },
        None => v,
    }
}

/// The cover rows that do not belong to `key`.
pub open spec fn covers_without(covered: Seq<CoverRow>, key: Seq<char>) -> Seq<CoverRow>
    decreases covered.len(),
{
    if covered.len() == 0 {
        covered
    } else {
        let before = covers_without(covered.drop_last(), key);
        if covered.last().notification_key@ == key {
            before
        } else {
            before.push(covered.last())
        }
    }
}

/// Releases a reservation that Discord definitely did not act on: the
/// notification is pending again, its episodes are no longer announced, and the
/// webhook waits until `retry_at`.
pub open spec fn spec_rate_limited(v: StoreView, key: Seq<char>, retry_at: i64) -> StoreView {
    StoreView {
        settings: Settings { webhook_retry_at: retry_at, ..v.settings },
        notifications: match note_at(v.notifications, key) {
            Some(i) => v.notifications.update(
                i,
                NotificationRow {
                    state: NotificationState::Pending,
                    attempted_at: None,
                    ..v.notifications[i]
                },
            ),
            None => v.notifications,
        },
        covered: covers_without(v.covered, key),
        ..v
    }
}

/// Postpones a pending notification until `retry_at`.
pub open spec fn spec_defer(v: StoreView, key: Seq<char>, retry_at: i64) -> StoreView {
    match note_at(v.notifications, key) {
        Some(i) => if v.notifications[i].state == NotificationState::Pending {
            StoreView {
                notifications: v.notifications.update(
                    i,
                    NotificationRow { retry_at: retry_at, ..v.notifications[i] },
                ),
                ..v
            }
        } else {
            v
        },
        None => v,
    }
}

/// The notifications kept when a series is replanned: all but its pending ones.
pub open spec fn kept_rows(rows: Seq<NotificationRow>, series_id: i64) -> Seq<NotificationRow>
    decreases rows.len(),
{
    if rows.len() == 0 {
        rows
    } else {
        let before = kept_rows(rows.drop_last(), series_id);
        let r = rows.last();
        if r.series_id == series_id && r.state == NotificationState::Pending {
            before
        } else {
            before.push(r)
        }
    }
}

/// The retry time a replanned notification inherits from its pending predecessor.
pub open spec fn inherited_retry(rows: Seq<NotificationRow>, series_id: i64, key: Seq<char>) -> i64 {
    match note_at(rows, key) {
        Some(i) => if rows[i].series_id == series_id && rows[i].state
            == NotificationState::Pending {
            rows[i].retry_at
        } else {
            0
        },
        None => 0,
    }
}

/// The stored form of a newly planned notification.
pub open spec fn planned_row(p: PlannedNotification, series_id: i64, retry_at: i64) -> NotificationRow {
    NotificationRow {
        key: p.key,
        series_id: series_id,
        mode: p.mode,
        season: p.season,
        episode_id: p.episode_id,
        due_at: p.due_at,
        content: p.content,
        state: NotificationState::Pending,
        retry_at: retry_at,
        attempted_at: None,
        sent_at: None,
        awaiting_confirmation: p.awaiting_confirmation,
    }
}

/// Adds each plan whose key is not stored yet, in order.
pub open spec fn insert_plans(
    rows: Seq<NotificationRow>,
    old_rows: Seq<NotificationRow>,
    plans: Seq<PlannedNotification>,
    series_id: i64,
) -> Seq<NotificationRow>
    decreases plans.len(),
{
    if plans.len() == 0 {
        rows
    } else {
        let before = insert_plans(rows, old_rows, plans.drop_last(), series_id);
        let p = plans.last();
        if note_at(before, p.key@) is Some {
            before
        } else {
            before.push(planned_row(p, series_id, inherited_retry(old_rows, series_id, p.key@)))
        }
    }
}

/// Replaces a series' pending notifications with a new plan. Attempted
/// notifications are never replaced, and a pending one keeps its retry time.
pub open spec fn spec_replace_plans(v: StoreView, series_id: i64, plans: Seq<PlannedNotification>) -> StoreView {
    StoreView {
        notifications: insert_plans(
            kept_rows(v.notifications, series_id),
            v.notifications,
            plans,
            series_id,
        ),
        ..v
    }
}

/// Whether both colours are RGB values.
pub open spec fn colors_valid(c: EmbedColors) -> bool {
    c.episode_color <= 0xffffff && c.season_color <= 0xffffff
}

fn copy_row(r: &NotificationRow) -> (c: NotificationRow)
    ensures
        c == *r,
{
    NotificationRow {
        key: r.key.clone(),
        series_id: r.series_id,
        mode: r.mode,
        season: r.season,
        episode_id: r.episode_id,
        due_at: r.due_at,
        content: r.content.clone(),
        state: r.state,
        retry_at: r.retry_at,
        attempted_at: r.attempted_at,
        sent_at: r.sent_at,
        awaiting_confirmation: r.awaiting_confirmation,
    }
}

fn covered_now(covered: &Vec<CoverRow>, episode_id: i64) -> (r: bool)
    ensures
        r == is_covered(covered@, episode_id),
{
    for i in 0..covered.len()
        invariant
            forall|j: int| 0 <= j < i ==> (#[trigger] covered@[j]).episode_id != episode_id,
    {
        if covered[i].episode_id == episode_id {
            assert(covered@[i as int].episode_id == episode_id);
            return true;
        }
    }
    false
}

fn max_time(a: i64, b: i64, c: i64) -> (r: i64)
    ensures
        r == latest_of(a, b, c),
{
    let ab = if a >= b {
        a
    } else {
        b
    };
    if ab >= c {
        ab
    } else {
        c
    }
}

// ---------------------------------------------------------------------
// Laws of the ledger
// ---------------------------------------------------------------------

proof fn lemma_add_covers(covered: Seq<CoverRow>, ids: Seq<i64>, key: String)
    ensures
        add_covers(covered, ids, key).len() >= covered.len(),
        forall|k: int| 0 <= k < ids.len() ==> is_covered(add_covers(covered, ids, key), #[trigger] ids[k]),
        forall|x: i64| is_covered(covered, x) ==> #[trigger] is_covered(add_covers(covered, ids, key), x),
        (forall|k: int| 0 <= k < ids.len() ==> is_covered(covered, #[trigger] ids[k])) ==> add_covers(
            covered,
            ids,
            key,
        ) == covered,
    decreases ids.len(),
{
    if ids.len() > 0 {
        let before = add_covers(covered, ids.drop_last(), key);
        lemma_add_covers(covered, ids.drop_last(), key);
        let after = add_covers(covered, ids, key);
        assert forall|x: i64| is_covered(before, x) implies #[trigger] is_covered(after, x) by {
            let j = choose|j: int| 0 <= j < before.len() && (#[trigger] before[j]).episode_id == x;
            assert(after[j] == before[j]);
        }
        assert forall|k: int| 0 <= k < ids.len() implies is_covered(after, #[trigger] ids[k]) by {
            if k < ids.len() - 1 {
                assert(ids.drop_last()[k] == ids[k]);
            } else if !is_covered(before, ids.last()) {
                assert(after[after.len() - 1].episode_id == ids.last());
            }
        }
        if forall|k: int| 0 <= k < ids.len() ==> is_covered(covered, #[trigger] ids[k]) {
            assert forall|k: int| 0 <= k < ids.drop_last().len() implies is_covered(
                covered,
                #[trigger] ids.drop_last()[k],
            ) by {
                assert(ids.drop_last()[k] == ids[k]);
            }
            assert(is_covered(covered, ids[ids.len() - 1]));
        }
    }
}

proof fn lemma_page_bounded(n: nat, order: Seq<usize>)
    requires
        forall|k: int| 0 <= k < order.len() ==> (#[trigger] order[k]) < n,
        forall|x: int, y: int| 0 <= x < y < order.len() ==> (#[trigger] order[x]) != (#[trigger] order[y]),
    ensures
        order.len() <= n,
{
    let s = order.to_set();
    assert forall|x: usize| s.contains(x) implies (x as int) < n by {
        let k = choose|k: int| 0 <= k < order.len() && order[k] == x;
    }
    order.unique_seq_to_set();
    let bound = Set::new(|x: usize| (x as int) < n);
    assert(s.subset_of(bound));
    crate::progress::lemma_usize_prefix_set(n);
    vstd::set_lib::lemma_len_subset(s, bound);
}

/// A reservation is exclusive: once `claim` answers `true` for a key, no later
/// claim of that key answers `true` (until a definite refusal releases it),
/// whatever the time. So two workers, or a restart after a crash, never send
/// the same notification twice. A successful claim also records every episode
/// it announces, and happens only when its rules allow it.
pub proof fn claim_is_exclusive(v: StoreView, p: PlannedNotification, now: i64, q: PlannedNotification, later: i64)
    requires
        well_formed(v),
        spec_claim(v, p, now).1,
        q.key@ == p.key@,
    ensures
        !spec_claim(spec_claim(v, p, now).0, q, later).1,
        note_at(v.notifications, p.key@) matches Some(i) && claimable(v, v.notifications[i], now),
        forall|k: int|
            0 <= k < p.episode_ids@.len() ==> is_covered(
                spec_claim(v, p, now).0.covered,
                #[trigger] p.episode_ids@[k],
            ),
{
    let i = note_at(v.notifications, p.key@)->0;
    let w = spec_claim(v, p, now).0;
    lemma_add_covers(v.covered, p.episode_ids@, p.key);
    assert(w.notifications[i].key@ == p.key@);
    assert forall|a: int, b: int| 0 <= a < b < w.notifications.len() implies (
    #[trigger] w.notifications[a]).key@ != (#[trigger] w.notifications[b]).key@ by {
        assert(w.notifications[a].key@ == v.notifications[a].key@);
        assert(w.notifications[b].key@ == v.notifications[b].key@);
    }
    lemma_note_at(w.notifications, i);
}

/// A notification that left `pending` (reserved, sent, uncertain, failed or
/// covered) is never delivered again by the automatic rules: replanning keeps
/// it unchanged, a claim of its key is refused and changes nothing, and it is
/// never the next notification due.
pub proof fn attempted_notifications_are_final(
    v: StoreView,
    i: int,
    series_id: i64,
    plans: Seq<PlannedNotification>,
    plan: PlannedNotification,
    now: i64,
)
    requires
        well_formed(v),
        0 <= i < v.notifications.len(),
        v.notifications[i].state != NotificationState::Pending,
        plan.key@ == v.notifications[i].key@,
    ensures
        exists|j: int|
            0 <= j < spec_replace_plans(v, series_id, plans).notifications.len()
                && #[trigger] spec_replace_plans(v, series_id, plans).notifications[j]
                == v.notifications[i],
        forall|j: int|
            0 <= j < spec_replace_plans(v, series_id, plans).notifications.len() && (
            #[trigger] spec_replace_plans(v, series_id, plans).notifications[j]).key@
                == v.notifications[i].key@ ==> spec_replace_plans(v, series_id, plans).notifications[j]
                == v.notifications[i],
        spec_claim(v, plan, now) == (v, false),
        spec_next_due(v) matches Some(t) ==> t.0 != v.notifications[i].key@,
{
    lemma_note_at(v.notifications, i);
    lemma_kept_rows(v.notifications, series_id, i);
    let kept = kept_rows(v.notifications, series_id);
    lemma_insert_plans(kept, v.notifications, plans, series_id, v.notifications[i]);
    if spec_next_due(v) is Some {
        let c = choose|c: int| is_next_due(v, c);
        if v.notifications[c].key@ == v.notifications[i].key@ {
            if c != i {
                if c < i {
                    assert(v.notifications[c].key@ != v.notifications[i].key@);
                } else {
                    assert(v.notifications[i].key@ != v.notifications[c].key@);
                }
            }
        }
    }
}

proof fn lemma_kept_rows(rows: Seq<NotificationRow>, series_id: i64, i: int)
    requires
        0 <= i < rows.len(),
        rows[i].state != NotificationState::Pending,
        forall|a: int, b: int|
            0 <= a < b < rows.len() ==> (#[trigger] rows[a]).key@ != (#[trigger] rows[b]).key@,
    ensures
        exists|j: int| 0 <= j < kept_rows(rows, series_id).len() && #[trigger] kept_rows(rows, series_id)[j] == rows[i],
        forall|j: int|
            0 <= j < kept_rows(rows, series_id).len() && (#[trigger] kept_rows(rows, series_id)[j]).key@
                == rows[i].key@ ==> kept_rows(rows, series_id)[j] == rows[i],
    decreases rows.len(),
{
    let k = kept_rows(rows, series_id);
    let last = rows.len() - 1;
    if i == last {
        let d = rows.drop_last();
        let kd = kept_rows(d, series_id);
        lemma_kept_rows_from(d, series_id);
        assert(k[k.len() - 1] == rows[i]);
        assert forall|j: int| 0 <= j < k.len() && (#[trigger] k[j]).key@ == rows[i].key@ implies k[j] == rows[i] by {
            if j < k.len() - 1 {
                assert(k[j] == kd[j]);
                let x = choose|x: int| 0 <= x < d.len() && (#[trigger] d[x]) == kd[j];
                assert(rows[x] == d[x]);
                assert(rows[x].key@ != rows[i].key@);
            }
        }
    } else {
        let d = rows.drop_last();
        assert forall|a: int, b: int| 0 <= a < b < d.len() implies (#[trigger] d[a]).key@ != (#[trigger] d[b]).key@ by {
            assert(d[a] == rows[a]);
            assert(d[b] == rows[b]);
        }
        assert(d[i] == rows[i]);
        lemma_kept_rows(d, series_id, i);
        let kd = kept_rows(d, series_id);
        let j0 = choose|j: int| 0 <= j < kd.len() && #[trigger] kd[j] == rows[i];
        assert(k[j0] == kd[j0]);
        assert forall|j: int| 0 <= j < k.len() && (#[trigger] k[j]).key@ == rows[i].key@ implies k[j] == rows[i] by {
            if j < kd.len() {
                assert(k[j] == kd[j]);
            } else {
                assert(k[j] == rows[last]);
                assert(rows[i].key@ != rows[last].key@);
            }
        }
    }
}

proof fn lemma_kept_rows_from(rows: Seq<NotificationRow>, series_id: i64)
    ensures
        forall|j: int|
            0 <= j < kept_rows(rows, series_id).len() ==> exists|x: int|
                0 <= x < rows.len() && (#[trigger] rows[x]) == #[trigger] kept_rows(rows, series_id)[j],
    decreases rows.len(),
{
    if rows.len() > 0 {
        let d = rows.drop_last();
        lemma_kept_rows_from(d, series_id);
        let k = kept_rows(rows, series_id);
        let kd = kept_rows(d, series_id);
        assert forall|j: int| 0 <= j < k.len() implies exists|x: int|
            0 <= x < rows.len() && (#[trigger] rows[x]) == #[trigger] k[j] by {
            if j < kd.len() {
                assert(k[j] == kd[j]);
                let x = choose|x: int| 0 <= x < d.len() && (#[trigger] d[x]) == kd[j];
                assert(rows[x] == d[x]);
            } else {
                assert(rows[rows.len() - 1] == k[j]);
            }
        }
    }
}

proof fn lemma_insert_plans(
    rows: Seq<NotificationRow>,
    old_rows: Seq<NotificationRow>,
    plans: Seq<PlannedNotification>,
    series_id: i64,
    r: NotificationRow,
)
    requires
        exists|j: int| 0 <= j < rows.len() && #[trigger] rows[j] == r,
        forall|j: int| 0 <= j < rows.len() && (#[trigger] rows[j]).key@ == r.key@ ==> rows[j] == r,
    ensures
        exists|j: int|
            0 <= j < insert_plans(rows, old_rows, plans, series_id).len() && #[trigger] insert_plans(
                rows,
                old_rows,
                plans,
                series_id,
            )[j] == r,
        forall|j: int|
            0 <= j < insert_plans(rows, old_rows, plans, series_id).len() && (
            #[trigger] insert_plans(rows, old_rows, plans, series_id)[j]).key@ == r.key@
                ==> insert_plans(rows, old_rows, plans, series_id)[j] == r,
    decreases plans.len(),
{
    if plans.len() > 0 {
        lemma_insert_plans(rows, old_rows, plans.drop_last(), series_id, r);
        let before = insert_plans(rows, old_rows, plans.drop_last(), series_id);
        let after = insert_plans(rows, old_rows, plans, series_id);
        let j0 = choose|j: int| 0 <= j < before.len() && #[trigger] before[j] == r;
        let p = plans.last();
        if note_at(before, p.key@) is None {
            assert(after[j0] == before[j0]);
            if p.key@ == r.key@ {
                assert(before[j0].key@ == p.key@);
            }
            assert forall|j: int| 0 <= j < after.len() && (#[trigger] after[j]).key@ == r.key@ implies after[j] == r by {
                if j < before.len() {
                    assert(after[j] == before[j]);
                } else {
                    assert(before[j0].key@ == r.key@);
                }
            }
        }
    }
}

/// Whether no key occurs twice among `rows`.
pub open spec fn keys_distinct(rows: Seq<NotificationRow>) -> bool {
    forall|a: int, b: int| 0 <= a < b < rows.len() ==> (#[trigger] rows[a]).key@ != (#[trigger] rows[b]).key@
}

/// Whether no key occurs twice among `plans`.
pub open spec fn plan_keys_distinct(plans: Seq<PlannedNotification>) -> bool {
    forall|a: int, b: int| 0 <= a < b < plans.len() ==> (#[trigger] plans[a]).key@ != (#[trigger] plans[b]).key@
}

/// Whether `key` is the key of one of `plans`.
pub open spec fn planned_key(plans: Seq<PlannedNotification>, key: Seq<char>) -> bool {
    exists|k: int| 0 <= k < plans.len() && (#[trigger] plans[k]).key@ == key
}

/// Whether `r` is a pending notification of `series_id`.
pub open spec fn pending_of(r: NotificationRow, series_id: i64) -> bool {
    r.series_id == series_id && r.state == NotificationState::Pending
}

proof fn lemma_kept_rows_props(rows: Seq<NotificationRow>, series_id: i64)
    requires
        keys_distinct(rows),
    ensures
        keys_distinct(kept_rows(rows, series_id)),
        forall|j: int|
            0 <= j < kept_rows(rows, series_id).len() ==> !pending_of(
                #[trigger] kept_rows(rows, series_id)[j],
                series_id,
            ),
        forall|x: int|
            0 <= x < rows.len() && !pending_of(#[trigger] rows[x], series_id) ==> exists|j: int|
                0 <= j < kept_rows(rows, series_id).len() && kept_rows(rows, series_id)[j] == rows[x],
    decreases rows.len(),
{
    lemma_kept_rows_from(rows, series_id);
    if rows.len() > 0 {
        let d = rows.drop_last();
        assert forall|a: int, b: int| 0 <= a < b < d.len() implies (#[trigger] d[a]).key@ != (#[trigger] d[b]).key@ by {
            assert(d[a] == rows[a]);
            assert(d[b] == rows[b]);
        }
        lemma_kept_rows_props(d, series_id);
        lemma_kept_rows_from(d, series_id);
        let k = kept_rows(rows, series_id);
        let kd = kept_rows(d, series_id);
        let last = rows.len() - 1;
        assert forall|a: int, b: int| 0 <= a < b < k.len() implies (#[trigger] k[a]).key@ != (#[trigger] k[b]).key@ by {
            if b < kd.len() {
                assert(k[a] == kd[a]);
                assert(k[b] == kd[b]);
            } else {
                assert(k[a] == kd[a]);
                assert(k[b] == rows[last]);
                let x = choose|x: int| 0 <= x < d.len() && (#[trigger] d[x]) == kd[a];
                assert(rows[x] == d[x]);
            }
        }
        assert forall|j: int| 0 <= j < k.len() implies !pending_of(#[trigger] k[j], series_id) by {
            if j < kd.len() {
                assert(k[j] == kd[j]);
            }
        }
        assert forall|x: int| 0 <= x < rows.len() && !pending_of(#[trigger] rows[x], series_id) implies exists|j: int|
            0 <= j < k.len() && k[j] == rows[x] by {
            if x < last {
                assert(d[x] == rows[x]);
                let j = choose|j: int| 0 <= j < kd.len() && kd[j] == d[x];
                assert(k[j] == kd[j]);
            } else {
                assert(k[k.len() - 1] == rows[x]);
            }
        }
    }
}

proof fn lemma_insert_plans_shape(
    rows: Seq<NotificationRow>,
    old_rows: Seq<NotificationRow>,
    plans: Seq<PlannedNotification>,
    series_id: i64,
)
    requires
        keys_distinct(rows),
        plan_keys_distinct(plans),
    ensures
        rows.len() <= insert_plans(rows, old_rows, plans, series_id).len(),
        forall|j: int| 0 <= j < rows.len() ==> #[trigger] insert_plans(rows, old_rows, plans, series_id)[j] == rows[j],
        keys_distinct(insert_plans(rows, old_rows, plans, series_id)),
        forall|j: int|
            rows.len() <= j < insert_plans(rows, old_rows, plans, series_id).len() ==> planned_key(
                plans,
                (#[trigger] insert_plans(rows, old_rows, plans, series_id)[j]).key@,
            ) && pending_of(insert_plans(rows, old_rows, plans, series_id)[j], series_id),
        forall|k: int|
            0 <= k < plans.len() ==> note_at(
                insert_plans(rows, old_rows, plans, series_id),
                (#[trigger] plans[k]).key@,
            ) is Some,
        forall|k: int|
            0 <= k < plans.len() && note_at(rows, (#[trigger] plans[k]).key@) is None ==> insert_plans(
                rows,
                old_rows,
                plans,
                series_id,
            )[note_at(insert_plans(rows, old_rows, plans, series_id), plans[k].key@)->0] == planned_row(
                plans[k],
                series_id,
                inherited_retry(old_rows, series_id, plans[k].key@),
            ),
    decreases plans.len(),
{
    let res = insert_plans(rows, old_rows, plans, series_id);
    if plans.len() > 0 {
        let d = plans.drop_last();
        let l = plans.len() - 1;
        assert forall|a: int, b: int| 0 <= a < b < d.len() implies (#[trigger] d[a]).key@ != (#[trigger] d[b]).key@ by {
            assert(d[a] == plans[a]);
            assert(d[b] == plans[b]);
        }
        lemma_insert_plans_shape(rows, old_rows, d, series_id);
        let before = insert_plans(rows, old_rows, d, series_id);
        let p = plans[l];
        assert(p == plans.last());
        assert forall|j: int| rows.len() <= j < before.len() implies planned_key(plans, (#[trigger] before[j]).key@) by {
            assert(planned_key(d, before[j].key@));
            let k = choose|k: int| 0 <= k < d.len() && (#[trigger] d[k]).key@ == before[j].key@;
            assert(plans[k] == d[k]);
        }
        if note_at(before, p.key@) is Some {
            assert(res == before);
            assert forall|k: int| 0 <= k < plans.len() && note_at(rows, (#[trigger] plans[k]).key@) is None implies res[note_at(res, plans[k].key@)->0] == planned_row(
                plans[k],
                series_id,
                inherited_retry(old_rows, series_id, plans[k].key@),
            ) by {
                if k < l {
                    assert(plans[k] == d[k]);
                } else {
                    let j = note_at(before, p.key@)->0;
                    if j < rows.len() {
                        assert(rows[j].key@ == p.key@);
                    } else {
                        let k2 = choose|k2: int| 0 <= k2 < d.len() && (#[trigger] d[k2]).key@ == before[j].key@;
                        assert(plans[k2] == d[k2]);
                    }
                }
            }
            assert forall|k: int| 0 <= k < plans.len() implies note_at(res, (#[trigger] plans[k]).key@) is Some by {
                if k < l {
                    assert(plans[k] == d[k]);
                }
            }
        } else {
            let new_row = planned_row(p, series_id, inherited_retry(old_rows, series_id, p.key@));
            assert(res == before.push(new_row));
            let n = before.len() as int;
            assert forall|a: int, b: int| 0 <= a < b < res.len() implies (#[trigger] res[a]).key@ != (#[trigger] res[b]).key@ by {
                assert(res[a] == before[a]);
                if b < n {
                    assert(res[b] == before[b]);
                } else {
                    if before[a].key@ == p.key@ {
                        assert(note_at(before, p.key@) is Some);
                    }
                }
            }
            assert forall|j: int| rows.len() <= j < res.len() implies planned_key(plans, (#[trigger] res[j]).key@)
                && pending_of(res[j], series_id) by {
                if j < n {
                    assert(res[j] == before[j]);
                } else {
                    assert(plans[l].key@ == res[j].key@);
                }
            }
            assert forall|k: int| 0 <= k < plans.len() implies note_at(res, (#[trigger] plans[k]).key@) is Some by {
                if k < l {
                    assert(plans[k] == d[k]);
                    let j = note_at(before, d[k].key@)->0;
                    assert(res[j] == before[j]);
                } else {
                    assert(res[n].key@ == p.key@);
                }
            }
            assert forall|k: int| 0 <= k < plans.len() && note_at(rows, (#[trigger] plans[k]).key@) is None implies res[note_at(res, plans[k].key@)->0] == planned_row(
                plans[k],
                series_id,
                inherited_retry(old_rows, series_id, plans[k].key@),
            ) by {
                if k < l {
                    assert(plans[k] == d[k]);
                    let j = note_at(before, d[k].key@)->0;
                    assert(res[j] == before[j]);
                    lemma_note_at(res, j);
                } else {
                    lemma_note_at(res, n);
                }
            }
        }
    }
}

/// What replanning stores under the key of `p`: a notification that was
/// attempted, or that belongs to another series, stays as it was; otherwise the
/// plan, with the retry time of the pending notification it replaces.
pub open spec fn replanned_row(rows: Seq<NotificationRow>, series_id: i64, p: PlannedNotification) -> NotificationRow {
    match note_at(rows, p.key@) {
        Some(i) => if !pending_of(rows[i], series_id) {
            rows[i]
        } else {
            planned_row(p, series_id, inherited_retry(rows, series_id, p.key@))
        },
        None => planned_row(p, series_id, inherited_retry(rows, series_id, p.key@)),
    }
}

/// Replanning a series replaces its pending notifications with the new plans:
/// afterwards every plan is stored under its key, as planned and with the retry
/// time of the pending notification it replaces (a postponement survives a
/// rescan), unless its key belongs to a notification that was already
/// attempted or that belongs to another series, which stays as it was. Every
/// pending notification of the series is then one of the plans, every other
/// notification is kept, and settings, shows and announced episodes are
/// unchanged.
pub proof fn replanning_replaces_pending(
    v: StoreView,
    series_id: i64,
    plans: Seq<PlannedNotification>,
)
    requires
        well_formed(v),
        plan_keys_distinct(plans),
    ensures
        ({
            let w = spec_replace_plans(v, series_id, plans);
            &&& forall|k: int|
                0 <= k < plans.len() ==> (note_at(w.notifications, (#[trigger] plans[k]).key@) matches Some(j)
                    && w.notifications[j] == replanned_row(v.notifications, series_id, plans[k]))
            &&& forall|j: int|
                0 <= j < w.notifications.len() && pending_of(#[trigger] w.notifications[j], series_id)
                    ==> planned_key(plans, w.notifications[j].key@)
            &&& forall|i: int|
                0 <= i < v.notifications.len() && !pending_of(#[trigger] v.notifications[i], series_id)
                    ==> exists|j: int| 0 <= j < w.notifications.len() && w.notifications[j] == v.notifications[i]
            &&& w.settings == v.settings
            &&& w.shows == v.shows
            &&& w.covered == v.covered
        }),
{
    let w = spec_replace_plans(v, series_id, plans);
    assert forall|k: int| 0 <= k < plans.len() implies (note_at(w.notifications, (#[trigger] plans[k]).key@) matches Some(j)
        && w.notifications[j] == replanned_row(v.notifications, series_id, plans[k])) by {
        lemma_replanned_key(v, series_id, plans, k);
    }
    assert forall|j: int| 0 <= j < w.notifications.len() && pending_of(#[trigger] w.notifications[j], series_id) implies planned_key(
        plans,
        w.notifications[j].key@,
    ) by {
        lemma_replanned_pending(v, series_id, plans, j);
    }
    assert forall|i: int| 0 <= i < v.notifications.len() && !pending_of(#[trigger] v.notifications[i], series_id) implies exists|j: int|
        0 <= j < w.notifications.len() && w.notifications[j] == v.notifications[i] by {
        lemma_replanned_kept(v, series_id, plans, i);
    }
}

proof fn lemma_replanned_key(v: StoreView, series_id: i64, plans: Seq<PlannedNotification>, k: int)
    requires
        well_formed(v),
        plan_keys_distinct(plans),
        0 <= k < plans.len(),
    ensures
        note_at(spec_replace_plans(v, series_id, plans).notifications, plans[k].key@) matches Some(j)
            && spec_replace_plans(v, series_id, plans).notifications[j] == replanned_row(
            v.notifications,
            series_id,
            plans[k],
        ),
{
    let rows = v.notifications;
    let kept = kept_rows(rows, series_id);
    lemma_kept_rows_props(rows, series_id);
    lemma_kept_rows_from(rows, series_id);
    lemma_insert_plans_shape(kept, rows, plans, series_id);
    let res = insert_plans(kept, rows, plans, series_id);
    assert(res == spec_replace_plans(v, series_id, plans).notifications);
    let key = plans[k].key@;
    let kept_key = match note_at(rows, key) {
        Some(i) => !pending_of(rows[i], series_id),
        None => false,
    };
    if kept_key {
        let i = note_at(rows, key)->0;
        let j = choose|j: int| 0 <= j < kept.len() && kept[j] == rows[i];
        assert(res[j] == kept[j]);
        lemma_note_at(res, j);
    } else {
        if note_at(kept, key) is Some {
            let j = note_at(kept, key)->0;
            let x = choose|x: int| 0 <= x < rows.len() && (#[trigger] rows[x]) == kept[j];
            assert(rows[x].key@ == key);
            lemma_note_at(rows, x);
            assert(!pending_of(kept[j], series_id));
        }
    }
}

proof fn lemma_replanned_pending(v: StoreView, series_id: i64, plans: Seq<PlannedNotification>, j: int)
    requires
        well_formed(v),
        plan_keys_distinct(plans),
        0 <= j < spec_replace_plans(v, series_id, plans).notifications.len(),
        pending_of(spec_replace_plans(v, series_id, plans).notifications[j], series_id),
    ensures
        planned_key(plans, spec_replace_plans(v, series_id, plans).notifications[j].key@),
{
    let rows = v.notifications;
    let kept = kept_rows(rows, series_id);
    lemma_kept_rows_props(rows, series_id);
    lemma_insert_plans_shape(kept, rows, plans, series_id);
    let res = insert_plans(kept, rows, plans, series_id);
    assert(res == spec_replace_plans(v, series_id, plans).notifications);
    if j < kept.len() {
        assert(res[j] == kept[j]);
    }
}

proof fn lemma_replanned_kept(v: StoreView, series_id: i64, plans: Seq<PlannedNotification>, i: int)
    requires
        well_formed(v),
        plan_keys_distinct(plans),
        0 <= i < v.notifications.len(),
        !pending_of(v.notifications[i], series_id),
    ensures
        exists|j: int|
            0 <= j < spec_replace_plans(v, series_id, plans).notifications.len()
                && spec_replace_plans(v, series_id, plans).notifications[j] == v.notifications[i],
{
    let rows = v.notifications;
    let kept = kept_rows(rows, series_id);
    lemma_kept_rows_props(rows, series_id);
    lemma_insert_plans_shape(kept, rows, plans, series_id);
    let res = insert_plans(kept, rows, plans, series_id);
    assert(res == spec_replace_plans(v, series_id, plans).notifications);
    let j = choose|j: int| 0 <= j < kept.len() && kept[j] == rows[i];
    assert(res[j] == kept[j]);
}

proof fn lemma_add_covers_prefix(covered: Seq<CoverRow>, ids: Seq<i64>, key: String)
    ensures
        add_covers(covered, ids, key).len() >= covered.len(),
        forall|j: int| 0 <= j < covered.len() ==> #[trigger] add_covers(covered, ids, key)[j] == covered[j],
    decreases ids.len(),
{
    if ids.len() > 0 {
        lemma_add_covers_prefix(covered, ids.drop_last(), key);
        let before = add_covers(covered, ids.drop_last(), key);
        let after = add_covers(covered, ids, key);
        assert forall|j: int| 0 <= j < covered.len() implies #[trigger] after[j] == covered[j] by {
            assert(after[j] == before[j]);
        }
    }
}

/// Reserving a notification that its rules allow answers `true` exactly when it
/// names an episode not announced yet: then it is put in sending, stamped with
/// the claim time, and all its episodes count as announced. When every episode
/// it names was already announced, it answers `false` and the notification is
/// marked covered.
pub proof fn claim_sends_what_is_new(v: StoreView, plan: PlannedNotification, now: i64)
    requires
        well_formed(v),
        note_at(v.notifications, plan.key@) is Some,
        claimable(v, v.notifications[note_at(v.notifications, plan.key@)->0], now),
    ensures
        ({
            let i = note_at(v.notifications, plan.key@)->0;
            let (w, sent) = spec_claim(v, plan, now);
            &&& sent <==> exists|k: int|
                0 <= k < plan.episode_ids@.len() && !is_covered(v.covered, #[trigger] plan.episode_ids@[k])
            &&& sent ==> w.notifications[i].state == NotificationState::Sending
                && w.notifications[i].attempted_at == Some(now)
            &&& !sent ==> w.notifications[i].state == NotificationState::Covered
            &&& forall|k: int| 0 <= k < plan.episode_ids@.len() ==> is_covered(w.covered, #[trigger] plan.episode_ids@[k])
            &&& w.notifications.len() == v.notifications.len()
        }),
{
    let cov = add_covers(v.covered, plan.episode_ids@, plan.key);
    lemma_add_covers(v.covered, plan.episode_ids@, plan.key);
    lemma_add_covers_prefix(v.covered, plan.episode_ids@, plan.key);
    if exists|k: int| 0 <= k < plan.episode_ids@.len() && !is_covered(v.covered, #[trigger] plan.episode_ids@[k]) {
        let k = choose|k: int| 0 <= k < plan.episode_ids@.len() && !is_covered(v.covered, #[trigger] plan.episode_ids@[k]);
        if cov.len() == v.covered.len() {
            assert(cov =~= v.covered);
            assert(is_covered(cov, plan.episode_ids@[k]));
        }
    }
}

/// An episode announced once is never announced again: a claim whose episodes
/// have all been announced (for instance by a season notification) sends nothing
/// and marks the notification covered; and an episode notification for an
/// announced episode is never the next one due.
pub proof fn announced_episodes_stay_announced(v: StoreView, plan: PlannedNotification, now: i64)
    requires
        well_formed(v),
        forall|k: int| 0 <= k < plan.episode_ids@.len() ==> is_covered(v.covered, #[trigger] plan.episode_ids@[k]),
    ensures
        !spec_claim(v, plan, now).1,
        spec_claim(v, plan, now).0.covered == v.covered,
        forall|i: int|
            0 <= i < v.notifications.len() && (#[trigger] v.notifications[i]).episode_id is Some
                && is_covered(v.covered, v.notifications[i].episode_id->0) ==> !deliverable(v, i),
{
    lemma_add_covers(v.covered, plan.episode_ids@, plan.key);
}

/// Synchronising with Sonarr keeps each known show's exclusion and mode (renames
/// and removals included): every stored show is still there with the same
/// policy, active exactly when Sonarr lists it.
pub proof fn sync_keeps_show_policy(v: StoreView, seen: Seq<(i64, String)>, i: int)
    requires
        well_formed(v),
        0 <= i < v.shows.len(),
    ensures
        exists|j: int|
            0 <= j < spec_sync_shows(v, seen).shows.len() && {
                let s = #[trigger] spec_sync_shows(v, seen).shows[j];
                &&& s.id == v.shows[i].id
                &&& s.excluded == v.shows[i].excluded
                &&& s.mode == v.shows[i].mode
                &&& s.mode_overridden == v.shows[i].mode_overridden
                &&& s.active == (exists|k: int| 0 <= k < seen.len() && (#[trigger] seen[k]).0 == v.shows[i].id)
            },
{
    let inactive = v.shows.map_values(|s: Show| Show { active: false, ..s });
    assert forall|a: int, b: int| 0 <= a < b < inactive.len() implies (#[trigger] inactive[a]).id != (#[trigger] inactive[b]).id by {
        assert(inactive[a].id == v.shows[a].id);
        assert(inactive[b].id == v.shows[b].id);
    }
    lemma_upsert_shows_keep(inactive, seen, v.settings.default_mode, i);
    let r = spec_sync_shows(v, seen).shows;
    assert(r == upsert_shows(inactive, seen, v.settings.default_mode));
    assert(inactive[i].active == false);
    let s = r[i];
    assert(s.id == v.shows[i].id);
}

proof fn lemma_upsert_shows_keep(shows: Seq<Show>, seen: Seq<(i64, String)>, mode: NotificationMode, i: int)
    requires
        0 <= i < shows.len(),
        forall|a: int, b: int| 0 <= a < b < shows.len() ==> (#[trigger] shows[a]).id != (#[trigger] shows[b]).id,
    ensures
        i < upsert_shows(shows, seen, mode).len(),
        upsert_shows(shows, seen, mode)[i].id == shows[i].id,
        upsert_shows(shows, seen, mode)[i].excluded == shows[i].excluded,
        upsert_shows(shows, seen, mode)[i].mode == shows[i].mode,
        upsert_shows(shows, seen, mode)[i].mode_overridden == shows[i].mode_overridden,
        upsert_shows(shows, seen, mode)[i].active == (shows[i].active || exists|k: int|
            0 <= k < seen.len() && (#[trigger] seen[k]).0 == shows[i].id),
        forall|a: int, b: int|
            0 <= a < b < upsert_shows(shows, seen, mode).len() ==> (#[trigger] upsert_shows(shows, seen, mode)[a]).id
                != (#[trigger] upsert_shows(shows, seen, mode)[b]).id,
    decreases seen.len(),
{
    if seen.len() > 0 {
        let d = seen.drop_last();
        lemma_upsert_shows_keep(shows, d, mode, i);
        let before = upsert_shows(shows, d, mode);
        let (id, title) = seen.last();
        lemma_upsert_keeps_ids_distinct(before, id, title, mode);
        let after = upsert_shows(shows, seen, mode);
        match show_at(before, id) {
            Some(x) => {
                if x == i {
                    assert(before[i].id == id);
                    assert(seen[seen.len() - 1].0 == shows[i].id);
                } else {
                    assert(after[i] == before[i]);
                    assert(before[x].id != before[i].id);
                }
            },
            None => {
                assert(after[i] == before[i]);
                assert(before[i].id != id);
            },
        }
        if shows[i].active || exists|k: int| 0 <= k < d.len() && (#[trigger] d[k]).0 == shows[i].id {
            if !shows[i].active {
                let k = choose|k: int| 0 <= k < d.len() && (#[trigger] d[k]).0 == shows[i].id;
                assert(seen[k] == d[k]);
            }
        } else {
            assert forall|k: int| 0 <= k < seen.len() - 1 implies (#[trigger] seen[k]).0 != shows[i].id by {
                assert(seen[k] == d[k]);
            }
        }
    }
}

/// After a definite refusal releases a reservation, nothing is due before the
/// webhook's new retry time.
pub proof fn release_waits_for_retry(v: StoreView, key: Seq<char>, retry_at: i64)
    ensures
        spec_next_due(spec_rate_limited(v, key, retry_at)) matches Some(t) ==> t.2 >= retry_at,
{
}

/// Whether the show policy or the webhook holds the notification `r` back: the
/// webhook is disabled, or its show is unknown, excluded, removed from Sonarr,
/// or set to the other mode.
pub open spec fn held_by_policy(v: StoreView, r: NotificationRow) -> bool {
    ||| v.settings.webhook_disabled
    ||| show_at(v.shows, r.series_id) is None
    ||| v.shows[show_at(v.shows, r.series_id)->0].excluded
    ||| !v.shows[show_at(v.shows, r.series_id)->0].active
    ||| v.shows[show_at(v.shows, r.series_id)->0].mode != r.mode
}

/// Delivery follows the policy and the clock: a notification is never reserved
/// before its due time (the air time), its own retry time or the webhook's
/// retry time, nor while its show is excluded, removed or in the other mode, or
/// the webhook is disabled; such a claim is refused and changes nothing. A
/// notification that the policy holds back is never the next one due.
pub proof fn delivery_follows_policy(v: StoreView, plan: PlannedNotification, now: i64)
    requires
        well_formed(v),
        note_at(v.notifications, plan.key@) is Some,
    ensures
        ({
            let r = v.notifications[note_at(v.notifications, plan.key@)->0];
            (now < r.due_at || now < r.retry_at || now < v.settings.webhook_retry_at
                || held_by_policy(v, r)) ==> spec_claim(v, plan, now) == (v, false)
        }),
        held_by_policy(v, v.notifications[note_at(v.notifications, plan.key@)->0]) ==> !(
        spec_next_due(v) matches Some(n) && n.0 == plan.key@),
{
    let i = note_at(v.notifications, plan.key@)->0;
    if held_by_policy(v, v.notifications[i]) {
        if let Some(n) = spec_next_due(v) {
            let j = choose|j: int| is_next_due(v, j);
            if n.0 == plan.key@ {
                lemma_note_at(v.notifications, j);
                assert(j == i);
            }
        }
    }
}

// ---------------------------------------------------------------------
// Activity listings
// ---------------------------------------------------------------------

/// Whether the notification at `i` belongs in the listing `view`: upcoming
/// shows pending notifications that the show's current policy would deliver;
/// history shows attempted ones; no view shows all.
pub open spec fn in_listing(v: StoreView, view: Option<NotificationView>, i: int) -> bool {
    let r = v.notifications[i];
    &&& 0 <= i < v.notifications.len()
    &&& match view {
        Some(NotificationView::Upcoming) => {
            &&& r.state == NotificationState::Pending
            &&& show_at(v.shows, r.series_id) is Some
            &&& v.shows[show_at(v.shows, r.series_id)->0].mode == r.mode
            &&& v.shows[show_at(v.shows, r.series_id)->0].active
            &&& !v.shows[show_at(v.shows, r.series_id)->0].excluded
            &&& (r.episode_id is Some ==> !is_covered(v.covered, r.episode_id->0))
        },
        Some(NotificationView::History) => r.state != NotificationState::Pending,
        None => true,
    }
}

/// Listing order: upcoming by due time, soonest first; other listings latest
/// first; equal due times by key.
pub open spec fn listed_first(v: StoreView, view: Option<NotificationView>, i: int, j: int) -> bool {
    let a = v.notifications[i];
    let b = v.notifications[j];
    if view == Some(NotificationView::Upcoming) {
        a.due_at < b.due_at || (a.due_at == b.due_at && text_before(a.key@, b.key@))
    } else {
        a.due_at > b.due_at || (a.due_at == b.due_at && text_before(a.key@, b.key@))
    }
}

/// `order` lists every notification of the listing once, in listing order.
pub open spec fn is_listing_order(v: StoreView, view: Option<NotificationView>, order: Seq<int>) -> bool {
    &&& forall|k: int| 0 <= k < order.len() ==> in_listing(v, view, #[trigger] order[k])
    &&& forall|a: int, b: int|
        0 <= a < b < order.len() ==> listed_first(v, view, #[trigger] order[a], #[trigger] order[b])
    &&& forall|i: int| #[trigger] in_listing(v, view, i) ==> exists|k: int| 0 <= k < order.len() && #[trigger] order[k] == i
}

/// Listings come in the order the dashboard promises: upcoming notifications
/// soonest first, history and the full listing latest first, equal due times by
/// key; history holds only attempted notifications and upcoming only pending
/// ones.
pub proof fn listings_are_ordered(v: StoreView, view: Option<NotificationView>, order: Seq<int>)
    requires
        well_formed(v),
        is_listing_order(v, view, order),
    ensures
        forall|a: int, b: int|
            0 <= a < b < order.len() ==> {
                let x = v.notifications[#[trigger] order[a]];
                let y = v.notifications[#[trigger] order[b]];
                if view == Some(NotificationView::Upcoming) {
                    x.due_at < y.due_at || (x.due_at == y.due_at && text_before(x.key@, y.key@))
                } else {
                    x.due_at > y.due_at || (x.due_at == y.due_at && text_before(x.key@, y.key@))
                }
            },
        forall|k: int|
            0 <= k < order.len() ==> {
                let r = v.notifications[#[trigger] order[k]];
                &&& view == Some(NotificationView::History) ==> r.state != NotificationState::Pending
                &&& view == Some(NotificationView::Upcoming) ==> r.state == NotificationState::Pending
            },
{
    assert forall|a: int, b: int| 0 <= a < b < order.len() implies {
        let x = v.notifications[#[trigger] order[a]];
        let y = v.notifications[#[trigger] order[b]];
        if view == Some(NotificationView::Upcoming) {
            x.due_at < y.due_at || (x.due_at == y.due_at && text_before(x.key@, y.key@))
        } else {
            x.due_at > y.due_at || (x.due_at == y.due_at && text_before(x.key@, y.key@))
        }
    } by {
        assert(listed_first(v, view, order[a], order[b]));
    }
    assert forall|k: int| 0 <= k < order.len() implies {
        let r = v.notifications[#[trigger] order[k]];
        &&& view == Some(NotificationView::History) ==> r.state != NotificationState::Pending
        &&& view == Some(NotificationView::Upcoming) ==> r.state == NotificationState::Pending
    } by {
        assert(in_listing(v, view, order[k]));
    }
}

/// The page of `order` that skips `offset` entries and holds at most `limit`.
pub open spec fn page_of(order: Seq<int>, offset: nat, limit: nat) -> Seq<int> {
    let start = if offset < order.len() { offset as int } else { order.len() as int };
    let end = if start + limit < order.len() { start + limit } else { order.len() as int };
    order.subrange(start, end)
}

proof fn lemma_listed_first_order(v: StoreView, view: Option<NotificationView>, i: int, j: int, k: int)
    requires
        well_formed(v),
        0 <= i < v.notifications.len(),
        0 <= j < v.notifications.len(),
        0 <= k < v.notifications.len(),
    ensures
        !(listed_first(v, view, i, j) && listed_first(v, view, j, i)),
        i != j ==> listed_first(v, view, i, j) || listed_first(v, view, j, i),
        listed_first(v, view, i, j) && listed_first(v, view, j, k) ==> listed_first(v, view, i, k),
{
    let (a, b, c) = (v.notifications[i].key@, v.notifications[j].key@, v.notifications[k].key@);
    lemma_text_before_asymmetric(a, b);
    lemma_text_before_total(a, b);
    if i < j {
        assert(v.notifications[i].key@ != v.notifications[j].key@);
    } else if j < i {
        assert(v.notifications[j].key@ != v.notifications[i].key@);
    }
    if text_before(a, b) && text_before(b, c) {
        lemma_text_before_transitive(a, b, c);
    }
}

/// 1 when a notification in state `s` needs attention (reserved, uncertain or failed), else 0.
pub open spec fn attention(s: NotificationState) -> nat {
    if s == NotificationState::Sending || s == NotificationState::Uncertain || s
        == NotificationState::Failed {
        1
    } else {
        0
    }
}

/// The unresolved count is the number of notifications that are reserved,
/// uncertain or failed.
pub proof fn unresolved_count_counts_attention(rows: Seq<NotificationRow>)
    ensures
        unresolved_count(rows) == rows.filter(
            |r: NotificationRow|
                r.state == NotificationState::Sending || r.state == NotificationState::Uncertain
                    || r.state == NotificationState::Failed,
        ).len(),
    decreases rows.len(),
{
    reveal(Seq::filter);
    if rows.len() > 0 {
        unresolved_count_counts_attention(rows.drop_last());
    }
}

proof fn lemma_unresolved_update(rows: Seq<NotificationRow>, i: int, r: NotificationRow)
    requires
        0 <= i < rows.len(),
    ensures
        unresolved_count(rows.update(i, r)) + attention(rows[i].state) == unresolved_count(rows)
            + attention(r.state),
    decreases rows.len(),
{
    let u = rows.update(i, r);
    let l = rows.len() - 1;
    if i == l {
        assert(u.drop_last() =~= rows.drop_last());
    } else {
        assert(u.drop_last() =~= rows.drop_last().update(i, r));
        lemma_unresolved_update(rows.drop_last(), i, r);
    }
}

/// Recording how a reserved delivery ended changes the unresolved count only
/// for a success: a failed or uncertain outcome still needs attention, so the
/// count stays; a sent one no longer does, so it drops by one.
pub proof fn finishing_and_unresolved_count(v: StoreView, key: Seq<char>, outcome: DeliveryState, now: i64)
    requires
        note_at(v.notifications, key) matches Some(i) && v.notifications[i].state
            == NotificationState::Sending,
    ensures
        outcome != DeliveryState::Sent ==> unresolved_count(
            spec_finish(v, key, outcome, now).notifications,
        ) == unresolved_count(v.notifications),
        outcome == DeliveryState::Sent ==> unresolved_count(
            spec_finish(v, key, outcome, now).notifications,
        ) + 1 == unresolved_count(v.notifications),
{
    let i = note_at(v.notifications, key)->0;
    let r = spec_finish(v, key, outcome, now).notifications[i];
    assert(spec_finish(v, key, outcome, now).notifications == v.notifications.update(i, r));
    lemma_unresolved_update(v.notifications, i, r);
}

/// The embed colour of a new ledger (Discord's blurple).
pub const DEFAULT_COLOR: u32 = 0x5865f2;

/// Number of notifications reserved, uncertain or failed.
pub open spec fn unresolved_count(rows: Seq<NotificationRow>) -> nat
    decreases rows.len(),
{
    if rows.len() == 0 {
        0
    } else {
        unresolved_count(rows.drop_last()) + if rows.last().state == NotificationState::Sending
            || rows.last().state == NotificationState::Uncertain || rows.last().state
            == NotificationState::Failed {
            1nat
        } else {
            0nat
        }
    }
}

impl Store {
    /// Whether the stored show identifiers, notification keys and covered
    /// episodes are each unique.
    pub fn is_well_formed(&self) -> (r: bool)
        ensures
            r == well_formed(self@),
    {
        for i in 0..self.shows.len()
            invariant
                forall|a: int, b: int|
                    0 <= a < b < self.shows@.len() && a < i ==> (#[trigger] self.shows@[a]).id != (
                    #[trigger] self.shows@[b]).id,
        {
            for j in i + 1..self.shows.len()
                invariant
                    i < self.shows@.len(),
                    forall|a: int, b: int|
                        0 <= a < b < self.shows@.len() && a < i ==> (#[trigger] self.shows@[a]).id
                            != (#[trigger] self.shows@[b]).id,
                    forall|b: int| i < b < j ==> self.shows@[i as int].id != (#[trigger] self.shows@[b]).id,
            {
                if self.shows[i].id == self.shows[j].id {
                    assert(self.shows@[i as int].id == self.shows@[j as int].id);
                    return false;
                }
            }
        }
        for i in 0..self.notifications.len()
            invariant
                forall|a: int, b: int|
                    0 <= a < b < self.shows@.len() ==> (#[trigger] self.shows@[a]).id != (
                    #[trigger] self.shows@[b]).id,
                forall|a: int, b: int|
                    0 <= a < b < self.notifications@.len() && a < i ==> (
                    #[trigger] self.notifications@[a]).key@ != (
                    #[trigger] self.notifications@[b]).key@,
        {
            for j in i + 1..self.notifications.len()
                invariant
                    i < self.notifications@.len(),
                    forall|a: int, b: int|
                        0 <= a < b < self.shows@.len() ==> (#[trigger] self.shows@[a]).id != (
                        #[trigger] self.shows@[b]).id,
                    forall|a: int, b: int|
                        0 <= a < b < self.notifications@.len() && a < i ==> (
                        #[trigger] self.notifications@[a]).key@ != (
                        #[trigger] self.notifications@[b]).key@,
                    forall|b: int|
                        i < b < j ==> self.notifications@[i as int].key@ != (
                        #[trigger] self.notifications@[b]).key@,
            {
                if self.notifications[i].key == self.notifications[j].key {
                    assert(self.notifications@[i as int].key@ == self.notifications@[j as int].key@);
                    return false;
                }
            }
        }
        for i in 0..self.covered.len()
            invariant
                forall|a: int, b: int|
                    0 <= a < b < self.shows@.len() ==> (#[trigger] self.shows@[a]).id != (
                    #[trigger] self.shows@[b]).id,
                forall|a: int, b: int|
                    0 <= a < b < self.notifications@.len() ==> (
                    #[trigger] self.notifications@[a]).key@ != (
                    #[trigger] self.notifications@[b]).key@,
                forall|a: int, b: int|
                    0 <= a < b < self.covered@.len() && a < i ==> (
                    #[trigger] self.covered@[a]).episode_id != (
                    #[trigger] self.covered@[b]).episode_id,
        {
            for j in i + 1..self.covered.len()
                invariant
                    i < self.covered@.len(),
                    forall|a: int, b: int|
                        0 <= a < b < self.shows@.len() ==> (#[trigger] self.shows@[a]).id != (
                        #[trigger] self.shows@[b]).id,
                    forall|a: int, b: int|
                        0 <= a < b < self.notifications@.len() ==> (
                        #[trigger] self.notifications@[a]).key@ != (
                        #[trigger] self.notifications@[b]).key@,
                    forall|a: int, b: int|
                        0 <= a < b < self.covered@.len() && a < i ==> (
                        #[trigger] self.covered@[a]).episode_id != (
                        #[trigger] self.covered@[b]).episode_id,
                    forall|b: int|
                        i < b < j ==> self.covered@[i as int].episode_id != (
                        #[trigger] self.covered@[b]).episode_id,
            {
                if self.covered[i].episode_id == self.covered[j].episode_id {
                    assert(self.covered@[i as int].episode_id == self.covered@[j as int].episode_id);
                    assert(self@.covered[i as int].episode_id == self@.covered[j as int].episode_id);
                    assert(!well_formed(self@));
                    return false;
                }
            }
        }
        true
    }

    /// Excludes or includes a show; `false` when the show is unknown.
    pub fn set_excluded(&mut self, id: i64, excluded: bool) -> (found: bool)
        requires
            well_formed(old(self)@),
        ensures
            (final(self)@, found) == spec_set_excluded(old(self)@, id, excluded),
            well_formed(final(self)@),
    {
        match find_show(&self.shows, id) {
            Some(i) => {
                let s = copy_show(&self.shows[i]);
                self.shows.set(i, Show { excluded, ..s });
                assert(self@ == spec_set_excluded(old(self)@, id, excluded).0);
                true
            },
            None => false,
        }
    }

    /// Gives a show its own mode; `false` when the show is unknown.
    pub fn set_show_mode(&mut self, id: i64, mode: NotificationMode) -> (found: bool)
        requires
            well_formed(old(self)@),
        ensures
            (final(self)@, found) == spec_set_show_mode(old(self)@, id, mode),
            well_formed(final(self)@),
    {
        match find_show(&self.shows, id) {
            Some(i) => {
                let s = copy_show(&self.shows[i]);
                self.shows.set(i, Show { mode, mode_overridden: true, ..s });
                assert(self@ == spec_set_show_mode(old(self)@, id, mode).0);
                true
            },
            None => false,
        }
    }

    /// Returns a show to the default mode; `false` when the show is unknown.
    pub fn reset_show_mode(&mut self, id: i64) -> (found: bool)
        requires
            well_formed(old(self)@),
        ensures
            (final(self)@, found) == spec_reset_show_mode(old(self)@, id),
            well_formed(final(self)@),
    {
        match find_show(&self.shows, id) {
            Some(i) => {
                let s = copy_show(&self.shows[i]);
                let mode = self.settings.default_mode;
                self.shows.set(i, Show { mode, mode_overridden: false, ..s });
                assert(self@ == spec_reset_show_mode(old(self)@, id).0);
                true
            },
            None => false,
        }
    }

    /// Sets the default mode, which every show without its own mode follows.
    pub fn set_default_mode(&mut self, mode: NotificationMode)
        requires
            well_formed(old(self)@),
        ensures
            final(self)@ == spec_set_default_mode(old(self)@, mode),
            well_formed(final(self)@),
    {
        self.settings.default_mode = mode;
        let ghost target = spec_set_default_mode(old(self)@, mode).shows;
        let n = self.shows.len();
        for i in 0..n
            invariant
                n == self.shows@.len(),
                self.shows@.len() == old(self).shows@.len(),
                target == spec_set_default_mode(old(self)@, mode).shows,
                forall|j: int| 0 <= j < i ==> self.shows@[j] == target[j],
                forall|j: int| i <= j < self.shows@.len() ==> self.shows@[j] == old(self).shows@[j],
                self.settings == (Settings { default_mode: mode, ..old(self).settings }),
                self.notifications@ == old(self).notifications@,
                self.covered@ == old(self).covered@,
        {
            if !self.shows[i].mode_overridden {
                let s = copy_show(&self.shows[i]);
                self.shows.set(i, Show { mode, ..s });
            }
        }
        assert(self.shows@ =~= target);
        proof {
            let w = self@;
            assert forall|a: int, b: int| 0 <= a < b < w.shows.len() implies (#[trigger] w.shows[a]).id != (
            #[trigger] w.shows[b]).id by {
                assert(w.shows[a].id == old(self).shows@[a].id);
                assert(w.shows[b].id == old(self).shows@[b].id);
            }
        }
    }

    /// Sets the default mode and removes every show-specific mode.
    pub fn reset_all_show_modes(&mut self, mode: NotificationMode)
        requires
            well_formed(old(self)@),
        ensures
            final(self)@ == spec_reset_all_show_modes(old(self)@, mode),
            well_formed(final(self)@),
    {
        self.settings.default_mode = mode;
        let ghost target = spec_reset_all_show_modes(old(self)@, mode).shows;
        let n = self.shows.len();
        for i in 0..n
            invariant
                n == self.shows@.len(),
                self.shows@.len() == old(self).shows@.len(),
                target == spec_reset_all_show_modes(old(self)@, mode).shows,
                forall|j: int| 0 <= j < i ==> self.shows@[j] == target[j],
                forall|j: int| i <= j < self.shows@.len() ==> self.shows@[j] == old(self).shows@[j],
                self.settings == (Settings { default_mode: mode, ..old(self).settings }),
                self.notifications@ == old(self).notifications@,
                self.covered@ == old(self).covered@,
        {
            let s = copy_show(&self.shows[i]);
            self.shows.set(i, Show { mode, mode_overridden: false, ..s });
        }
        assert(self.shows@ =~= target);
        proof {
            let w = self@;
            assert forall|a: int, b: int| 0 <= a < b < w.shows.len() implies (#[trigger] w.shows[a]).id != (
            #[trigger] w.shows[b]).id by {
                assert(w.shows[a].id == old(self).shows@[a].id);
                assert(w.shows[b].id == old(self).shows@[b].id);
            }
        }
    }

    /// Synchronises the shows with Sonarr's series list (identifier and title).
    pub fn sync_shows(&mut self, seen: &Vec<(i64, String)>)
        requires
            well_formed(old(self)@),
        ensures
            final(self)@ == spec_sync_shows(old(self)@, seen@),
            well_formed(final(self)@),
    {
        let ghost inactive = old(self).shows@.map_values(|s: Show| Show { active: false, ..s });
        let n = self.shows.len();
        for i in 0..n
            invariant
                n == self.shows@.len(),
                self.shows@.len() == old(self).shows@.len(),
                inactive == old(self).shows@.map_values(|s: Show| Show { active: false, ..s }),
                forall|j: int| 0 <= j < i ==> self.shows@[j] == inactive[j],
                forall|j: int| i <= j < self.shows@.len() ==> self.shows@[j] == old(self).shows@[j],
                self.settings == old(self).settings,
                self.notifications@ == old(self).notifications@,
                self.covered@ == old(self).covered@,
        {
            let s = copy_show(&self.shows[i]);
            self.shows.set(i, Show { active: false, ..s });
        }
        assert(self.shows@ =~= inactive);
        assert forall|a: int, b: int| 0 <= a < b < self.shows@.len() implies (#[trigger] self.shows@[a]).id != (
        #[trigger] self.shows@[b]).id by {
            assert(self.shows@[a].id == old(self).shows@[a].id);
            assert(self.shows@[b].id == old(self).shows@[b].id);
        }
        let mode = self.settings.default_mode;
        for k in 0..seen.len()
            invariant
                mode == self.settings.default_mode,
                self.settings == old(self).settings,
                self.notifications@ == old(self).notifications@,
                self.covered@ == old(self).covered@,
                self.shows@ == upsert_shows(inactive, seen@.take(k as int), mode),
                forall|a: int, b: int|
                    0 <= a < b < self.shows@.len() ==> (#[trigger] self.shows@[a]).id != (
                    #[trigger] self.shows@[b]).id,
        {
            let id = seen[k].0;
            let title = seen[k].1.clone();
            assert(seen@.take(k + 1).drop_last() =~= seen@.take(k as int));
            assert(seen@.take(k + 1).last() == (id, title));
            proof {
                lemma_upsert_keeps_ids_distinct(self.shows@, id, title, mode);
            }
            match find_show(&self.shows, id) {
                Some(i) => {
                    let s = copy_show(&self.shows[i]);
                    self.shows.set(i, Show { title, active: true, ..s });
                },
                None => {
                    self.shows.push(
                        Show {
                            id,
                            title,
                            excluded: false,
                            active: true,
                            mode,
                            mode_overridden: false,
                        },
                    );
                },
            }
        }
        assert(seen@.take(seen@.len() as int) =~= seen@);
    }

    /// The next notification to deliver: key, series and send time.
    pub fn next_due(&self) -> (r: Option<(String, i64, i64)>)
        requires
            well_formed(self@),
        ensures
            match r {
                Some((key, series_id, at)) => spec_next_due(self@) == Some((key@, series_id, at)),
                None => spec_next_due(self@) is None,
            },
    {
        let ghost v = self@;
        let mut best: Option<usize> = None;
        let mut best_at: i64 = 0;
        for i in 0..self.notifications.len()
            invariant
                v == self@,
                well_formed(v),
                match best {
                    Some(b) => b < i && deliverable(v, b as int) && best_at == send_time(v, b as int)
                        && forall|j: int|
                        0 <= j < i && #[trigger] deliverable(v, j) && j != b ==> goes_before(
                            v,
                            b as int,
                            j,
                        ),
                    None => forall|j: int| 0 <= j < i ==> !#[trigger] deliverable(v, j),
                },
        {
            let r = &self.notifications[i];
            let mut ok = r.state == NotificationState::Pending && !r.awaiting_confirmation
                && !self.settings.webhook_disabled;
            if ok {
                match find_show(&self.shows, r.series_id) {
                    Some(k) => {
                        let sh = &self.shows[k];
                        ok = sh.mode == r.mode && !sh.excluded && sh.active;
                    },
                    None => {
                        ok = false;
                    },
                }
            }
            if ok {
                match r.episode_id {
                    Some(e) => {
                        ok = !covered_now(&self.covered, e);
                    },
                    None => {},
                }
            }
            assert(ok == deliverable(v, i as int));
            if ok {
                let at = max_time(r.due_at, r.retry_at, self.settings.webhook_retry_at);
                let better = match best {
                    Some(b) => at < best_at || (at == best_at && text_less(
                        r.key.as_str(),
                        self.notifications[b].key.as_str(),
                    )),
                    None => true,
                };
                if better {
                    proof {
                        if let Some(b) = best {
                            assert(goes_before(v, i as int, b as int));
                            assert forall|j: int|
                                0 <= j < i + 1 && #[trigger] deliverable(v, j) && j != i implies goes_before(
                                v,
                                i as int,
                                j,
                            ) by {
                                if j != b as int {
                                    assert(goes_before(v, b as int, j));
                                    if send_time(v, i as int) == send_time(v, j) {
                                        lemma_text_before_transitive(
                                            v.notifications[i as int].key@,
                                            v.notifications[b as int].key@,
                                            v.notifications[j].key@,
                                        );
                                    }
                                }
                            }
                        }
                    }
                    best = Some(i);
                    best_at = at;
                } else {
                    proof {
                        if let Some(b) = best {
                            assert(v.notifications[b as int].key@ != v.notifications[i as int].key@);
                            lemma_text_before_total(
                                v.notifications[b as int].key@,
                                v.notifications[i as int].key@,
                            );
                            assert(goes_before(v, b as int, i as int));
                        }
                    }
                }
            }
        }
        match best {
            Some(b) => {
                proof {
                    assert(is_next_due(v, b as int));
                    let c = choose|c: int| is_next_due(v, c);
                    if c != b as int {
                        assert(goes_before(v, c, b as int));
                        assert(goes_before(v, b as int, c));
                        lemma_text_before_asymmetric(
                            v.notifications[c].key@,
                            v.notifications[b as int].key@,
                        );
                    }
                }
                let r = &self.notifications[b];
                Some((r.key.clone(), r.series_id, best_at))
            },
            None => {
                proof {
                    if exists|c: int| is_next_due(v, c) {
                        let c = choose|c: int| is_next_due(v, c);
                        assert(deliverable(v, c));
                    }
                }
                None
            },
        }
    }

    /// Reserves `plan` for delivery at `now`; `true` when the caller must send it.
    pub fn claim(&mut self, plan: &PlannedNotification, now: i64) -> (sent: bool)
        requires
            well_formed(old(self)@),
        ensures
            (final(self)@, sent) == spec_claim(old(self)@, *plan, now),
            well_formed(final(self)@),
    {
        let ghost v = self@;
        let i = match find_note(&self.notifications, &plan.key) {
            Some(i) => i,
            None => {
                return false;
            },
        };
        let r = copy_row(&self.notifications[i]);
        let mut ok = r.state == NotificationState::Pending && !r.awaiting_confirmation && r.due_at
            <= now && r.retry_at <= now && !self.settings.webhook_disabled
            && self.settings.webhook_retry_at <= now;
        if ok {
            match find_show(&self.shows, r.series_id) {
                Some(k) => {
                    let sh = &self.shows[k];
                    ok = sh.mode == r.mode && !sh.excluded && sh.active;
                },
                None => {
                    ok = false;
                },
            }
        }
        assert(ok == claimable(v, r, now));
        if !ok {
            return false;
        }
        let before = self.covered.len();
        for k in 0..plan.episode_ids.len()
            invariant
                self.covered@ == add_covers(v.covered, plan.episode_ids@.take(k as int), plan.key),
                self.shows@ == v.shows,
                self.notifications@ == v.notifications,
                self.settings == v.settings,
                forall|a: int, b: int|
                    0 <= a < b < self.covered@.len() ==> (#[trigger] self.covered@[a]).episode_id
                        != (#[trigger] self.covered@[b]).episode_id,
                self.covered@.len() >= v.covered.len(),
                before == v.covered.len(),
        {
            let id = plan.episode_ids[k];
            assert(plan.episode_ids@.take(k + 1).drop_last() =~= plan.episode_ids@.take(k as int));
            assert(plan.episode_ids@.take(k + 1).last() == id);
            if !covered_now(&self.covered, id) {
                self.covered.push(CoverRow { episode_id: id, notification_key: plan.key.clone() });
                proof {
                    assert forall|a: int, b: int|
                        0 <= a < b < self.covered@.len() implies (#[trigger] self.covered@[a]).episode_id
                            != (#[trigger] self.covered@[b]).episode_id by {
                        if b == self.covered@.len() - 1 {
                            assert(!is_covered(self.covered@.drop_last(), id));
                            assert(self.covered@.drop_last()[a] == self.covered@[a]);
                        }
                    }
                }
            }
        }
        assert(plan.episode_ids@.take(plan.episode_ids@.len() as int) =~= plan.episode_ids@);
        let fresh = self.covered.len() > before;
        let state = if fresh {
            NotificationState::Sending
        } else {
            NotificationState::Covered
        };
        self.notifications.set(
            i,
            NotificationRow { state, attempted_at: Some(now), ..r },
        );
        proof {
            let w = self@;
            assert forall|a: int, b: int| 0 <= a < b < w.notifications.len() implies (
            #[trigger] w.notifications[a]).key@ != (#[trigger] w.notifications[b]).key@ by {
                assert(w.notifications[a].key@ == v.notifications[a].key@);
                assert(w.notifications[b].key@ == v.notifications[b].key@);
            }
        }
        fresh
    }

    /// Records how a reserved attempt ended at `now`.
    pub fn finish(&mut self, key: &String, outcome: DeliveryState, now: i64)
        requires
            well_formed(old(self)@),
        ensures
            final(self)@ == spec_finish(old(self)@, key@, outcome, now),
            well_formed(final(self)@),
    {
        let ghost v = self@;
        match find_note(&self.notifications, key) {
            Some(i) => {
                if self.notifications[i].state == NotificationState::Sending {
                    let r = copy_row(&self.notifications[i]);
                    let state = match outcome {
                        DeliveryState::Sent => NotificationState::Sent,
                        DeliveryState::Uncertain => NotificationState::Uncertain,
                        DeliveryState::Failed => NotificationState::Failed,
                    };
                    let sent_at = match outcome {
                        DeliveryState::Sent => Some(now),
                        _ => None,
                    };
                    self.notifications.set(i, NotificationRow { state, sent_at, ..r });
                    proof {
                        let w = self@;
                        assert forall|a: int, b: int| 0 <= a < b < w.notifications.len() implies (
                        #[trigger] w.notifications[a]).key@ != (#[trigger] w.notifications[b]).key@ by {
                            assert(w.notifications[a].key@ == v.notifications[a].key@);
                            assert(w.notifications[b].key@ == v.notifications[b].key@);
                        }
                    }
                }
            },
            None => {},
        }
    }

    /// Releases the reservation of `key` and holds the webhook until `retry_at`.
    pub fn rate_limited(&mut self, key: &String, retry_at: i64)
        requires
            well_formed(old(self)@),
        ensures
            final(self)@ == spec_rate_limited(old(self)@, key@, retry_at),
            well_formed(final(self)@),
    {
        let ghost v = self@;
        let mut kept: Vec<CoverRow> = Vec::new();
        for i in 0..self.covered.len()
            invariant
                v == old(self)@,
                self@ == v,
                kept@ == covers_without(v.covered.take(i as int), key@),
                forall|a: int| 0 <= a < kept@.len() ==> exists|j: int| 0 <= j < i && (#[trigger] v.covered[j]) == #[trigger] kept@[a],
                forall|a: int, b: int|
                    0 <= a < b < kept@.len() ==> (#[trigger] kept@[a]).episode_id != (#[trigger] kept@[b]).episode_id,
                well_formed(v),
        {
            let c = &self.covered[i];
            assert(v.covered.take(i + 1).drop_last() =~= v.covered.take(i as int));
            assert(v.covered.take(i + 1).last() == *c);
            if !(c.notification_key == *key) {
                let ghost before = kept@;
                kept.push(CoverRow { episode_id: c.episode_id, notification_key: c.notification_key.clone() });
                proof {
                    assert forall|a: int| 0 <= a < kept@.len() implies exists|j: int| 0 <= j < i + 1 && (#[trigger] v.covered[j]) == #[trigger] kept@[a] by {
                        if a == kept@.len() - 1 {
                            assert(v.covered[i as int] == kept@[a]);
                        } else {
                            assert(kept@[a] == before[a]);
                            let j = choose|j: int| 0 <= j < i && (#[trigger] v.covered[j]) == before[a];
                            assert(v.covered[j] == kept@[a]);
                        }
                    }
                    assert forall|a: int, b: int|
                        0 <= a < b < kept@.len() implies (#[trigger] kept@[a]).episode_id != (#[trigger] kept@[b]).episode_id by {
                        if b == kept@.len() - 1 {
                            assert(kept@[a] == before[a]);
                            let j = choose|j: int| 0 <= j < i && (#[trigger] v.covered[j]) == before[a];
                            assert(v.covered[j].episode_id != v.covered[i as int].episode_id);
                        } else {
                            assert(kept@[a] == before[a]);
                            assert(kept@[b] == before[b]);
                        }
                    }
                }
            }
        }
        assert(v.covered.take(v.covered.len() as int) =~= v.covered);
        self.covered = kept;
        match find_note(&self.notifications, key) {
            Some(i) => {
                let r = copy_row(&self.notifications[i]);
                self.notifications.set(
                    i,
                    NotificationRow { state: NotificationState::Pending, attempted_at: None, ..r },
                );
                proof {
                    let w = self@;
                    assert forall|a: int, b: int| 0 <= a < b < w.notifications.len() implies (
                    #[trigger] w.notifications[a]).key@ != (#[trigger] w.notifications[b]).key@ by {
                        assert(w.notifications[a].key@ == v.notifications[a].key@);
                        assert(w.notifications[b].key@ == v.notifications[b].key@);
                    }
                }
            },
            None => {},
        }
        self.settings.webhook_retry_at = retry_at;
    }

    /// Postpones the pending notification `key` until `retry_at`.
    pub fn defer(&mut self, key: &String, retry_at: i64)
        requires
            well_formed(old(self)@),
        ensures
            final(self)@ == spec_defer(old(self)@, key@, retry_at),
            well_formed(final(self)@),
    {
        let ghost v = self@;
        match find_note(&self.notifications, key) {
            Some(i) => {
                if self.notifications[i].state == NotificationState::Pending {
                    let r = copy_row(&self.notifications[i]);
                    self.notifications.set(i, NotificationRow { retry_at, ..r });
                    proof {
                        let w = self@;
                        assert forall|a: int, b: int| 0 <= a < b < w.notifications.len() implies (
                        #[trigger] w.notifications[a]).key@ != (#[trigger] w.notifications[b]).key@ by {
                            assert(w.notifications[a].key@ == v.notifications[a].key@);
                            assert(w.notifications[b].key@ == v.notifications[b].key@);
                        }
                    }
                }
            },
            None => {},
        }
    }

    /// Stops all deliveries until the webhook is resumed.
    pub fn disable_webhook(&mut self)
        ensures
            final(self)@ == (StoreView {
                settings: Settings { webhook_disabled: true, ..old(self).settings },
                ..old(self)@
            }),
    {
        self.settings.webhook_disabled = true;
    }

    /// Re-enables the webhook and clears its backoff.
    pub fn resume_webhook(&mut self)
        ensures
            final(self)@ == (StoreView {
                settings: Settings {
                    webhook_disabled: false,
                    webhook_retry_at: 0,
                    ..old(self).settings
                },
                ..old(self)@
            }),
    {
        self.settings.webhook_disabled = false;
        self.settings.webhook_retry_at = 0;
    }

    /// Sets the embed colours; refused unless both are RGB values.
    pub fn set_embed_colors(&mut self, colors: EmbedColors) -> (r: Result<(), ()>)
        ensures
            colors_valid(colors) ==> r is Ok && final(self)@ == (StoreView {
                settings: Settings { colors: colors, ..old(self).settings },
                ..old(self)@
            }),
            !colors_valid(colors) ==> r is Err && final(self)@ == old(self)@,
    {
        if colors.episode_color <= 0xffffff && colors.season_color <= 0xffffff {
            self.settings.colors = colors;
            Ok(())
        } else {
            Err(())
        }
    }


    /// Replaces the pending notifications of `series_id` with `plans`.
    pub fn replace_plans(&mut self, series_id: i64, plans: &[PlannedNotification])
        requires
            well_formed(old(self)@),
        ensures
            final(self)@ == spec_replace_plans(old(self)@, series_id, plans@),
            well_formed(final(self)@),
    {
        let ghost v = self@;
        let mut old_rows: Vec<NotificationRow> = Vec::new();
        std::mem::swap(&mut old_rows, &mut self.notifications);
        assert(old_rows@ == v.notifications);
        for i in 0..old_rows.len()
            invariant
                old_rows@ == v.notifications,
                well_formed(v),
                self.settings == v.settings,
                self.shows@ == v.shows,
                self.covered@ == v.covered,
                self.notifications@ == kept_rows(old_rows@.take(i as int), series_id),
                forall|a: int|
                    0 <= a < self.notifications@.len() ==> exists|j: int|
                        0 <= j < i && (#[trigger] old_rows@[j]) == #[trigger] self.notifications@[a],
                forall|a: int, b: int|
                    0 <= a < b < self.notifications@.len() ==> (
                    #[trigger] self.notifications@[a]).key@ != (
                    #[trigger] self.notifications@[b]).key@,
        {
            let r = &old_rows[i];
            assert(old_rows@.take(i + 1).drop_last() =~= old_rows@.take(i as int));
            assert(old_rows@.take(i + 1).last() == *r);
            if !(r.series_id == series_id && r.state == NotificationState::Pending) {
                let ghost before = self.notifications@;
                self.notifications.push(copy_row(r));
                proof {
                    let n = self.notifications@;
                    assert forall|a: int| 0 <= a < n.len() implies exists|j: int|
                        0 <= j < i + 1 && (#[trigger] old_rows@[j]) == #[trigger] n[a] by {
                        if a == n.len() - 1 {
                            assert(old_rows@[i as int] == n[a]);
                        } else {
                            assert(n[a] == before[a]);
                            let j = choose|j: int|
                                0 <= j < i && (#[trigger] old_rows@[j]) == before[a];
                            assert(old_rows@[j] == n[a]);
                        }
                    }
                    assert forall|a: int, b: int| 0 <= a < b < n.len() implies (
                    #[trigger] n[a]).key@ != (#[trigger] n[b]).key@ by {
                        if b == n.len() - 1 {
                            assert(n[a] == before[a]);
                            let j = choose|j: int|
                                0 <= j < i && (#[trigger] old_rows@[j]) == before[a];
                            assert(old_rows@[j].key@ != old_rows@[i as int].key@);
                        } else {
                            assert(n[a] == before[a]);
                            assert(n[b] == before[b]);
                        }
                    }
                }
            }
        }
        assert(old_rows@.take(old_rows@.len() as int) =~= old_rows@);
        let ghost kept = self.notifications@;
        for k in 0..plans.len()
            invariant
                old_rows@ == v.notifications,
                well_formed(v),
                self.settings == v.settings,
                self.shows@ == v.shows,
                self.covered@ == v.covered,
                kept == kept_rows(v.notifications, series_id),
                self.notifications@ == insert_plans(kept, old_rows@, plans@.take(k as int), series_id),
                forall|a: int, b: int|
                    0 <= a < b < self.notifications@.len() ==> (
                    #[trigger] self.notifications@[a]).key@ != (
                    #[trigger] self.notifications@[b]).key@,
        {
            let p = &plans[k];
            assert(plans@.take(k + 1).drop_last() =~= plans@.take(k as int));
            assert(plans@.take(k + 1).last() == *p);
            match find_note(&self.notifications, &p.key) {
                Some(_) => {},
                None => {
                    let retry_at = match find_note(&old_rows, &p.key) {
                        Some(j) => {
                            if old_rows[j].series_id == series_id && old_rows[j].state
                                == NotificationState::Pending {
                                old_rows[j].retry_at
                            } else {
                                0
                            }
                        },
                        None => 0,
                    };
                    let row = NotificationRow {
                        key: p.key.clone(),
                        series_id,
                        mode: p.mode,
                        season: p.season,
                        episode_id: p.episode_id,
                        due_at: p.due_at,
                        content: p.content.clone(),
                        state: NotificationState::Pending,
                        retry_at,
                        attempted_at: None,
                        sent_at: None,
                        awaiting_confirmation: p.awaiting_confirmation,
                    };
                    assert(row == planned_row(*p, series_id, inherited_retry(old_rows@, series_id, p.key@)));
                    let ghost before = self.notifications@;
                    self.notifications.push(row);
                    proof {
                        let n = self.notifications@;
                        assert forall|a: int, b: int| 0 <= a < b < n.len() implies (
                        #[trigger] n[a]).key@ != (#[trigger] n[b]).key@ by {
                            if b == n.len() - 1 {
                                assert(n[a] == before[a]);
                                if before[a].key@ == p.key@ {
                                    assert(exists|x: int|
                                        0 <= x < before.len() && (#[trigger] before[x]).key@
                                            == p.key@);
                                }
                            } else {
                                assert(n[a] == before[a]);
                                assert(n[b] == before[b]);
                            }
                        }
                    }
                },
            }
        }
        assert(plans@.take(plans@.len() as int) =~= plans@);
    }


    fn is_in_listing(&self, view: Option<NotificationView>, i: usize) -> (r: bool)
        requires
            well_formed(self@),
            i < self@.notifications.len(),
        ensures
            r == in_listing(self@, view, i as int),
    {
        let r = &self.notifications[i];
        match view {
            None => true,
            Some(NotificationView::History) => r.state != NotificationState::Pending,
            Some(NotificationView::Upcoming) => {
                if r.state != NotificationState::Pending {
                    return false;
                }
                let ok = match find_show(&self.shows, r.series_id) {
                    Some(k) => {
                        let sh = &self.shows[k];
                        sh.mode == r.mode && sh.active && !sh.excluded
                    },
                    None => false,
                };
                if !ok {
                    return false;
                }
                match r.episode_id {
                    Some(e) => !covered_now(&self.covered, e),
                    None => true,
                }
            },
        }
    }

    fn comes_first(&self, view: Option<NotificationView>, i: usize, j: usize) -> (r: bool)
        requires
            i < self@.notifications.len(),
            j < self@.notifications.len(),
        ensures
            r == listed_first(self@, view, i as int, j as int),
    {
        let a = &self.notifications[i];
        let b = &self.notifications[j];
        let upcoming = match view {
            Some(NotificationView::Upcoming) => true,
            _ => false,
        };
        if upcoming {
            a.due_at < b.due_at || (a.due_at == b.due_at && text_less(a.key.as_str(), b.key.as_str()))
        } else {
            a.due_at > b.due_at || (a.due_at == b.due_at && text_less(a.key.as_str(), b.key.as_str()))
        }
    }

    fn next_in_listing(&self, view: Option<NotificationView>, after: Option<usize>) -> (r: Option<usize>)
        requires
            well_formed(self@),
            after matches Some(a) ==> a < self@.notifications.len(),
        ensures
            r matches Some(j) ==> j < self@.notifications.len() && in_listing(self@, view, j as int)
                && (after matches Some(a) ==> listed_first(self@, view, a as int, j as int)),
            r matches Some(j) ==> forall|m: int|
                #[trigger] in_listing(self@, view, m) && (after matches Some(a) ==> listed_first(self@, view, a as int, m))
                    ==> m == j || listed_first(self@, view, j as int, m),
            r is None ==> forall|m: int|
                #[trigger] in_listing(self@, view, m) ==> (after matches Some(a) && !listed_first(self@, view, a as int, m)),
    {
        let ghost v = self@;
        let mut best: Option<usize> = None;
        for i in 0..self.notifications.len()
            invariant
                v == self@,
                well_formed(v),
                after matches Some(a) ==> a < v.notifications.len(),
                best matches Some(j) ==> j < i && in_listing(v, view, j as int) && (
                after matches Some(a) ==> listed_first(v, view, a as int, j as int)),
                best matches Some(j) ==> forall|m: int|
                    0 <= m < i && #[trigger] in_listing(v, view, m) && (after matches Some(a) ==> listed_first(v, view, a as int, m))
                        ==> m == j || listed_first(v, view, j as int, m),
                best is None ==> forall|m: int|
                    0 <= m < i && #[trigger] in_listing(v, view, m) ==> (after matches Some(a) && !listed_first(v, view, a as int, m)),
        {
            if self.is_in_listing(view, i) {
                let later = match after {
                    Some(a) => self.comes_first(view, a, i),
                    None => true,
                };
                if later {
                    let better = match best {
                        Some(b) => self.comes_first(view, i, b),
                        None => true,
                    };
                    proof {
                        if let Some(b) = best {
                            lemma_listed_first_order(v, view, i as int, b as int, b as int);
                            assert forall|m: int|
                                0 <= m < i + 1 && #[trigger] in_listing(v, view, m) && (after matches Some(a) ==> listed_first(v, view, a as int, m))
                                    implies (if better { m == i || listed_first(v, view, i as int, m) } else { m == b || listed_first(v, view, b as int, m) }) by {
                                if m < i && m != b {
                                    lemma_listed_first_order(v, view, i as int, b as int, m);
                                }
                                if m == i && !better {
                                    lemma_listed_first_order(v, view, b as int, i as int, i as int);
                                }
                            }
                        }
                    }
                    if better {
                        best = Some(i);
                    }
                }
            }
        }
        best
    }

    /// One page of a notification listing, as positions in `notifications`:
    /// `offset` entries skipped, at most `limit` returned.
    pub fn notification_page(&self, view: Option<NotificationView>, limit: u32, offset: u32) -> (page: Vec<usize>)
        requires
            well_formed(self@),
        ensures
            exists|order: Seq<int>|
                is_listing_order(self@, view, order) && positions(page@) == page_of(
                    order,
                    offset as nat,
                    limit as nat,
                ),
    {
        let ghost v = self@;
        let mut order: Vec<usize> = Vec::new();
        let mut last: Option<usize> = None;
        loop
            invariant
                v == self@,
                well_formed(v),
                last matches Some(a) ==> a < v.notifications.len() && order@.len() > 0 && order@.last() == a,
                last is None ==> order@.len() == 0,
                order@.len() <= v.notifications.len(),
                forall|k: int| 0 <= k < order@.len() ==> (#[trigger] order@[k]) < v.notifications.len() && in_listing(v, view, order@[k] as int),
                forall|x: int, y: int|
                    0 <= x < y < order@.len() ==> listed_first(v, view, (#[trigger] order@[x]) as int, (#[trigger] order@[y]) as int),
                forall|m: int|
                    #[trigger] in_listing(v, view, m) && (last matches Some(a) && !listed_first(v, view, a as int, m)) ==> exists|k: int|
                        0 <= k < order@.len() && order@[k] as int == m,
            ensures
                order@.len() <= v.notifications.len(),
                forall|k: int| 0 <= k < order@.len() ==> (#[trigger] order@[k]) < v.notifications.len() && in_listing(v, view, order@[k] as int),
                forall|x: int, y: int|
                    0 <= x < y < order@.len() ==> listed_first(v, view, (#[trigger] order@[x]) as int, (#[trigger] order@[y]) as int),
                forall|m: int|
                    #[trigger] in_listing(v, view, m) ==> exists|k: int| 0 <= k < order@.len() && order@[k] as int == m,
            decreases v.notifications.len() - order@.len(),
        {
            match self.next_in_listing(view, last) {
                None => {
                    break;
                },
                Some(j) => {
                    proof {
                        assert forall|k: int| 0 <= k < order@.len() implies (#[trigger] order@[k]) != j by {
                            let a = last->0;
                            if k < order@.len() - 1 {
                                assert(listed_first(v, view, order@[k] as int, a as int));
                                lemma_listed_first_order(v, view, order@[k] as int, a as int, j as int);
                            }
                            lemma_listed_first_order(v, view, a as int, j as int, j as int);
                        }
                        let pushed = order@.push(j);
                        assert forall|x: int, y: int| 0 <= x < y < pushed.len() implies (#[trigger] pushed[x]) != (#[trigger] pushed[y]) by {
                            if y == pushed.len() - 1 {
                                assert(pushed[x] == order@[x]);
                            } else {
                                assert(pushed[x] == order@[x]);
                                assert(pushed[y] == order@[y]);
                                lemma_listed_first_order(v, view, order@[x] as int, order@[y] as int, order@[y] as int);
                                if order@[x] == order@[y] {
                                    lemma_listed_first_order(v, view, order@[x] as int, order@[x] as int, order@[x] as int);
                                }
                            }
                        }
                        lemma_page_bounded(v.notifications.len(), pushed);
                    }
                    let ghost old_order = order@;
                    order.push(j);
                    proof {
                        assert forall|x: int, y: int|
                            0 <= x < y < order@.len() implies listed_first(v, view, (#[trigger] order@[x]) as int, (#[trigger] order@[y]) as int) by {
                            if y == order@.len() - 1 && x < y {
                                let a = last->0;
                                if x < old_order.len() - 1 {
                                    assert(listed_first(v, view, old_order[x] as int, a as int));
                                    lemma_listed_first_order(v, view, old_order[x] as int, a as int, j as int);
                                }
                            } else {
                                assert(order@[x] == old_order[x]);
                                assert(order@[y] == old_order[y]);
                            }
                        }
                        assert forall|m: int|
                            #[trigger] in_listing(v, view, m) && !listed_first(v, view, j as int, m) implies exists|k: int|
                            0 <= k < order@.len() && order@[k] as int == m by {
                            if m == j as int {
                                assert(order@[order@.len() - 1] as int == m);
                            } else {
                                match last {
                                    Some(a) => {
                                        if !listed_first(v, view, a as int, m) {
                                            let k = choose|k: int| 0 <= k < old_order.len() && old_order[k] as int == m;
                                            assert(order@[k] == old_order[k]);
                                        }
                                    },
                                    None => {},
                                }
                            }
                        }
                    }
                    last = Some(j);
                },
            }
        }
        let n = order.len();
        let start: usize = if (offset as usize) < n { offset as usize } else { n };
        let end: usize = if (limit as usize) < n - start { start + limit as usize } else { n };
        let mut page: Vec<usize> = Vec::new();
        for k in start..end
            invariant
                start <= end <= n == order@.len(),
                positions(page@) == positions(order@).subrange(start as int, k as int),
        {
            let ghost before = page@;
            page.push(order[k]);
            assert(positions(order@)[k as int] == order@[k as int] as int);
            assert(positions(page@) =~= positions(before).push(order@[k as int] as int));
            assert(positions(page@) =~= positions(order@).subrange(start as int, k + 1));
        }
        proof {
            let p = positions(order@);
            assert forall|k: int| 0 <= k < p.len() implies in_listing(v, view, #[trigger] p[k]) by {
                assert(p[k] == order@[k] as int);
            }
            assert forall|a: int, b: int| 0 <= a < b < p.len() implies listed_first(v, view, #[trigger] p[a], #[trigger] p[b]) by {
                assert(p[a] == order@[a] as int);
                assert(p[b] == order@[b] as int);
            }
            assert forall|i: int| #[trigger] in_listing(v, view, i) implies exists|k: int| 0 <= k < p.len() && #[trigger] p[k] == i by {
                let k = choose|k: int| 0 <= k < order@.len() && order@[k] as int == i;
                assert(p[k] == i);
            }
            assert(is_listing_order(v, view, p));
            assert(positions(page@) =~= page_of(p, offset as nat, limit as nat));
        }
        page
    }


    /// An empty ledger that tracks what airs from `tracking_since` on, per
    /// episode by default, with the webhook enabled.
    pub fn new(tracking_since: i64) -> (s: Store)
        ensures
            s@.settings == (Settings {
                tracking_since,
                default_mode: NotificationMode::Episode,
                webhook_disabled: false,
                webhook_retry_at: 0,
                colors: EmbedColors { episode_color: DEFAULT_COLOR, season_color: DEFAULT_COLOR },
            }),
            s@.shows.len() == 0,
            s@.notifications.len() == 0,
            s@.covered.len() == 0,
            well_formed(s@),
    {
        Store {
            settings: Settings {
                tracking_since,
                default_mode: NotificationMode::Episode,
                webhook_disabled: false,
                webhook_retry_at: 0,
                colors: EmbedColors { episode_color: DEFAULT_COLOR, season_color: DEFAULT_COLOR },
            },
            shows: Vec::new(),
            notifications: Vec::new(),
            covered: Vec::new(),
        }
    }

    /// Number of deliveries whose outcome needs attention: reserved, uncertain or failed.
    pub fn unresolved_deliveries(&self) -> (n: usize)
        ensures
            n == unresolved_count(self@.notifications),
    {
        let mut n: usize = 0;
        for i in 0..self.notifications.len()
            invariant
                n == unresolved_count(self@.notifications.take(i as int)),
                n <= i,
        {
            assert(self@.notifications.take(i + 1).drop_last() =~= self@.notifications.take(i as int));
            let st = self.notifications[i].state;
            if st == NotificationState::Sending || st == NotificationState::Uncertain || st
                == NotificationState::Failed {
                n = n + 1;
            }
        }
        assert(self@.notifications.take(self@.notifications.len() as int) =~= self@.notifications);
        n
    }

}

// ---------------------------------------------------------------------
// Listings for the API
// ---------------------------------------------------------------------

/// Whether show `a` is listed before show `b`: by title, then by id.
pub open spec fn show_before(a: Show, b: Show) -> bool {
    text_before(a.title@, b.title@) || (a.title@ == b.title@ && a.id < b.id)
}

/// `order` lists every stored show once, by title and then by id.
pub open spec fn is_show_order(shows: Seq<Show>, order: Seq<int>) -> bool {
    &&& forall|k: int| 0 <= k < order.len() ==> 0 <= #[trigger] order[k] < shows.len()
    &&& forall|a: int, b: int|
        0 <= a < b < order.len() ==> show_before(shows[#[trigger] order[a]], shows[#[trigger] order[b]])
    &&& forall|i: int| 0 <= i < shows.len() ==> #[trigger] order.contains(i)
}

/// Whether show `m` is stored and comes after show `after` (after none, when
/// `after` is `None`).
pub open spec fn show_after(shows: Seq<Show>, after: Option<usize>, m: int) -> bool {
    &&& 0 <= m < shows.len()
    &&& (after matches Some(a) ==> show_before(shows[a as int], shows[m]))
}

/// Whether some entry of `order` is the position `m`.
pub open spec fn holds_position(order: Seq<usize>, m: int) -> bool {
    exists|k: int| 0 <= k < order.len() && order[k] as int == m
}

proof fn lemma_show_order(shows: Seq<Show>, i: int, j: int, k: int)
    requires
        forall|a: int, b: int|
            0 <= a < b < shows.len() ==> (#[trigger] shows[a]).id != (#[trigger] shows[b]).id,
        0 <= i < shows.len(),
        0 <= j < shows.len(),
        0 <= k < shows.len(),
    ensures
        !(show_before(shows[i], shows[j]) && show_before(shows[j], shows[i])),
        i != j ==> show_before(shows[i], shows[j]) || show_before(shows[j], shows[i]),
        show_before(shows[i], shows[j]) && show_before(shows[j], shows[k]) ==> show_before(
            shows[i],
            shows[k],
        ),
{
    let (a, b, c) = (shows[i].title@, shows[j].title@, shows[k].title@);
    lemma_text_before_asymmetric(a, b);
    lemma_text_before_total(a, b);
    if i < j {
        assert(shows[i].id != shows[j].id);
    } else if j < i {
        assert(shows[j].id != shows[i].id);
    }
    if text_before(a, b) && text_before(b, c) {
        lemma_text_before_transitive(a, b, c);
    }
}

/// The stored episodes that notifications of `series_id` have announced, in
/// ledger order.
pub open spec fn covered_of_series(
    covered: Seq<CoverRow>,
    rows: Seq<NotificationRow>,
    series_id: i64,
) -> Seq<i64>
    decreases covered.len(),
{
    if covered.len() == 0 {
        seq![]
    } else {
        let before = covered_of_series(covered.drop_last(), rows, series_id);
        let c = covered.last();
        if note_at(rows, c.notification_key@) matches Some(i) && rows[i].series_id == series_id {
            before.push(c.episode_id)
        } else {
            before
        }
    }
}

/// The stored notifications of `series_id`, in ledger order.
pub open spec fn rows_of_series(rows: Seq<NotificationRow>, series_id: i64) -> Seq<NotificationRow>
    decreases rows.len(),
{
    if rows.len() == 0 {
        seq![]
    } else {
        let before = rows_of_series(rows.drop_last(), series_id);
        if rows.last().series_id == series_id {
            before.push(rows.last())
        } else {
            before
        }
    }
}

impl Store {
    fn show_first(&self, i: usize, j: usize) -> (r: bool)
        requires
            i < self@.shows.len(),
            j < self@.shows.len(),
        ensures
            r == show_before(self@.shows[i as int], self@.shows[j as int]),
    {
        let a = &self.shows[i];
        let b = &self.shows[j];
        text_less(a.title.as_str(), b.title.as_str()) || (same_text(
            a.title.as_str(),
            b.title.as_str(),
        ) && a.id < b.id)
    }

    fn next_show(&self, after: Option<usize>) -> (r: Option<usize>)
        requires
            well_formed(self@),
            after matches Some(a) ==> a < self@.shows.len(),
        ensures
            r matches Some(j) ==> show_after(self@.shows, after, j as int),
            r matches Some(j) ==> forall|m: int| #[trigger]
                show_after(self@.shows, after, m) ==> m == j || show_before(
                    self@.shows[j as int],
                    self@.shows[m],
                ),
            r is None ==> forall|m: int| !#[trigger] show_after(self@.shows, after, m),
    {
        let ghost s = self@.shows;
        let mut best: Option<usize> = None;
        for i in 0..self.shows.len()
            invariant
                s == self@.shows,
                well_formed(self@),
                after matches Some(a) ==> a < s.len(),
                best matches Some(j) ==> j < i && show_after(s, after, j as int),
                best matches Some(j) ==> forall|m: int|
                    0 <= m < i && #[trigger] show_after(s, after, m) ==> m == j || show_before(
                        s[j as int],
                        s[m],
                    ),
                best is None ==> forall|m: int| 0 <= m < i ==> !#[trigger] show_after(s, after, m),
        {
            let later = match after {
                Some(a) => self.show_first(a, i),
                None => true,
            };
            if later {
                let better = match best {
                    Some(b) => self.show_first(i, b),
                    None => true,
                };
                proof {
                    if let Some(b) = best {
                        assert forall|m: int| 0 <= m < i + 1 && #[trigger] show_after(s, after, m) implies (
                        if better {
                            m == i || show_before(s[i as int], s[m])
                        } else {
                            m == b || show_before(s[b as int], s[m])
                        }) by {
                            lemma_show_order(s, i as int, b as int, m);
                        }
                    }
                }
                if better {
                    best = Some(i);
                }
            }
        }
        best
    }

    /// Every stored show once, by title and then by id, as positions in `shows`.
    pub fn show_listing(&self) -> (order: Vec<usize>)
        requires
            well_formed(self@),
        ensures
            is_show_order(self@.shows, positions(order@)),
    {
        let ghost s = self@.shows;
        let mut order: Vec<usize> = Vec::new();
        let mut last: Option<usize> = None;
        loop
            invariant
                s == self@.shows,
                well_formed(self@),
                last matches Some(a) ==> a < s.len() && order@.len() > 0 && order@.last() == a,
                last is None ==> order@.len() == 0,
                order@.len() <= s.len(),
                forall|k: int| 0 <= k < order@.len() ==> (#[trigger] order@[k]) < s.len(),
                forall|x: int, y: int|
                    0 <= x < y < order@.len() ==> show_before(
                        s[(#[trigger] order@[x]) as int],
                        s[(#[trigger] order@[y]) as int],
                    ),
                forall|m: int|
                    0 <= m < s.len() && !#[trigger] show_after(s, last, m) ==> holds_position(order@, m),
            ensures
                forall|k: int| 0 <= k < order@.len() ==> (#[trigger] order@[k]) < s.len(),
                forall|x: int, y: int|
                    0 <= x < y < order@.len() ==> show_before(
                        s[(#[trigger] order@[x]) as int],
                        s[(#[trigger] order@[y]) as int],
                    ),
                forall|m: int| 0 <= m < s.len() ==> #[trigger] holds_position(order@, m),
            decreases s.len() - order@.len(),
        {
            match self.next_show(last) {
                None => {
                    proof {
                        assert forall|m: int| 0 <= m < s.len() implies #[trigger] holds_position(order@, m) by {
                            assert(!show_after(s, last, m));
                        }
                    }
                    break;
                },
                Some(j) => {
                    proof {
                        let a = last->0;
                        assert forall|k: int| 0 <= k < order@.len() implies (#[trigger] order@[k]) != j by {
                            if k < order@.len() - 1 {
                                assert(show_before(s[order@[k] as int], s[a as int]));
                                lemma_show_order(s, order@[k] as int, a as int, j as int);
                                lemma_show_order(s, j as int, j as int, j as int);
                            } else {
                                lemma_show_order(s, a as int, a as int, a as int);
                            }
                        }
                        let pushed = order@.push(j);
                        assert forall|x: int, y: int| 0 <= x < y < pushed.len() implies (#[trigger] pushed[x]) != (#[trigger] pushed[y]) by {
                            assert(pushed[x] == order@[x]);
                            if y < pushed.len() - 1 {
                                assert(pushed[y] == order@[y]);
                                lemma_show_order(
                                    s,
                                    order@[x] as int,
                                    order@[x] as int,
                                    order@[x] as int,
                                );
                            }
                        }
                        lemma_page_bounded(s.len(), pushed);
                    }
                    let ghost old_order = order@;
                    order.push(j);
                    proof {
                        assert forall|x: int, y: int| 0 <= x < y < order@.len() implies show_before(
                            s[(#[trigger] order@[x]) as int],
                            s[(#[trigger] order@[y]) as int],
                        ) by {
                            assert(order@[x] == old_order[x]);
                            if y == order@.len() - 1 {
                                let a = last->0;
                                if x < old_order.len() - 1 {
                                    assert(show_before(s[old_order[x] as int], s[a as int]));
                                    lemma_show_order(s, old_order[x] as int, a as int, j as int);
                                }
                            } else {
                                assert(order@[y] == old_order[y]);
                            }
                        }
                        assert forall|m: int|
                            0 <= m < s.len() && !#[trigger] show_after(s, Some(j), m) implies holds_position(order@, m) by {
                            if m == j as int {
                                assert(order@[order@.len() - 1] as int == m);
                                assert(holds_position(order@, m));
                            } else {
                                assert(!show_after(s, last, m));
                                assert(holds_position(old_order, m));
                                let k = choose|k: int| 0 <= k < old_order.len() && old_order[k] as int == m;
                                assert(order@[k] == old_order[k]);
                                assert(holds_position(order@, m));
                            }
                        }
                    }
                    last = Some(j);
                },
            }
        }
        proof {
            let p = positions(order@);
            assert forall|k: int| 0 <= k < p.len() implies 0 <= #[trigger] p[k] < s.len() by {
                assert(p[k] == order@[k] as int);
            }
            assert forall|a: int, b: int| 0 <= a < b < p.len() implies show_before(
                s[#[trigger] p[a]],
                s[#[trigger] p[b]],
            ) by {
                assert(p[a] == order@[a] as int);
                assert(p[b] == order@[b] as int);
            }
            assert forall|i: int| 0 <= i < s.len() implies #[trigger] p.contains(i) by {
                assert(holds_position(order@, i));
                let k = choose|k: int| 0 <= k < order@.len() && order@[k] as int == i;
                assert(p[k] == i);
            }
        }
        order
    }

    /// Position of the show `id`, if stored.
    pub fn show_index(&self, id: i64) -> (r: Option<usize>)
        requires
            well_formed(self@),
        ensures
            match r {
                Some(i) => show_at(self@.shows, id) == Some(i as int),
                None => show_at(self@.shows, id) is None,
            },
    {
        find_show(&self.shows, id)
    }

    /// Position of the notification `key`, if stored.
    pub fn notification_index(&self, key: &String) -> (r: Option<usize>)
        requires
            well_formed(self@),
        ensures
            match r {
                Some(i) => note_at(self@.notifications, key@) == Some(i as int),
                None => note_at(self@.notifications, key@) is None,
            },
    {
        find_note(&self.notifications, key)
    }

    /// The episodes that notifications of `series_id` have announced.
    pub fn covered_episodes_of(&self, series_id: i64) -> (ids: Vec<i64>)
        requires
            well_formed(self@),
        ensures
            ids@ == covered_of_series(self@.covered, self@.notifications, series_id),
    {
        let mut ids: Vec<i64> = Vec::new();
        for i in 0..self.covered.len()
            invariant
                well_formed(self@),
                ids@ == covered_of_series(
                    self@.covered.take(i as int),
                    self@.notifications,
                    series_id,
                ),
        {
            assert(self@.covered.take(i + 1).drop_last() =~= self@.covered.take(i as int));
            assert(self@.covered.take(i + 1).last() == self@.covered[i as int]);
            let c = &self.covered[i];
            match find_note(&self.notifications, &c.notification_key) {
                Some(j) => {
                    if self.notifications[j].series_id == series_id {
                        ids.push(c.episode_id);
                    }
                },
                None => {},
            }
        }
        assert(self@.covered.take(self@.covered.len() as int) =~= self@.covered);
        ids
    }

    /// The key and stored state name of every notification of `series_id`.
    pub fn deliveries_of(&self, series_id: i64) -> (d: Vec<(String, String)>)
        ensures
            d@.len() == rows_of_series(self@.notifications, series_id).len(),
            forall|k: int|
                0 <= k < d@.len() ==> (#[trigger] d@[k]).0@ == rows_of_series(
                    self@.notifications,
                    series_id,
                )[k].key@ && d@[k].1@ == state_text(
                    rows_of_series(self@.notifications, series_id)[k].state,
                ),
    {
        let ghost rows = self@.notifications;
        let mut d: Vec<(String, String)> = Vec::new();
        for i in 0..self.notifications.len()
            invariant
                rows == self@.notifications,
                d@.len() == rows_of_series(rows.take(i as int), series_id).len(),
                forall|k: int|
                    0 <= k < d@.len() ==> (#[trigger] d@[k]).0@ == rows_of_series(
                        rows.take(i as int),
                        series_id,
                    )[k].key@ && d@[k].1@ == state_text(
                        rows_of_series(rows.take(i as int), series_id)[k].state,
                    ),
        {
            assert(rows.take(i + 1).drop_last() =~= rows.take(i as int));
            assert(rows.take(i + 1).last() == rows[i as int]);
            let r = &self.notifications[i];
            if r.series_id == series_id {
                let key = r.key.clone();
                let mut state = String::new();
                push_str(&mut state, r.state.as_str());
                d.push((key, state));
            }
        }
        assert(rows.take(rows.len() as int) =~= rows);
        d
    }
}

} // verus!
