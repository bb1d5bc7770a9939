//! Shared data: notification modes, shows, embed colours and planned notifications.
use vstd::prelude::*;
use crate::text::same_text;

verus! {

/// Whether a show is announced per episode or per completed season.
#[derive(Clone, Copy, Debug, PartialEq, Eq, Structural)]
pub enum NotificationMode {
    Episode,
    Season,
}

/// The stored name of a mode.
pub open spec fn mode_text(mode: NotificationMode) -> Seq<char> {
    match mode {
        NotificationMode::Episode => "episode"@,
        NotificationMode::Season => "season"@,
    }
}

/// The mode whose stored name is `value`, if any.
pub open spec fn mode_from_text(value: Seq<char>) -> Option<NotificationMode> {
    if value == "episode"@ {
        Some(NotificationMode::Episode)
    } else if value == "season"@ {
        Some(NotificationMode::Season)
    } else {
        None
    }
}

impl NotificationMode {
    /// The stored name: `"episode"` or `"season"`.
    pub fn as_str(self) -> (s: &'static str)
        ensures
            s@ == mode_text(self),
    {
        match self {
            NotificationMode::Episode => "episode",
            NotificationMode::Season => "season",
        }
    }

    /// Reads a stored mode name; any other text is refused.
    pub fn parse(value: &str) -> (r: Option<NotificationMode>)
        ensures
            r == mode_from_text(value@),
    {
        if same_text(value, "episode") {
            Some(NotificationMode::Episode)
        } else if same_text(value, "season") {
            Some(NotificationMode::Season)
        } else {
            None
        }
    }
}

impl Default for NotificationMode {
    fn default() -> (m: NotificationMode)
        ensures
            m == NotificationMode::Episode,
    {
        NotificationMode::Episode
    }
}

/// A Sonarr series as the service tracks it.
#[derive(Clone, Debug)]
pub struct Show {
    pub id: i64,
    pub title: String,
    pub excluded: bool,
    pub active: bool,
    pub mode: NotificationMode,
    pub mode_overridden: bool,
}

/// Discord embed colours (RGB) for each mode.
#[derive(Clone, Copy, Debug, PartialEq, Eq, Structural)]
pub struct EmbedColors {
    pub episode_color: u32,
    pub season_color: u32,
}

impl EmbedColors {
    /// The colour used for notifications of `mode`.
    pub fn for_mode(&self, mode: NotificationMode) -> (c: u32)
        ensures
            c == (match mode {
                NotificationMode::Episode => self.episode_color,
                NotificationMode::Season => self.season_color,
            }),
    {
        match mode {
            NotificationMode::Episode => self.episode_color,
            NotificationMode::Season => self.season_color,
        }
    }
}

/// A notification the planner wants delivered at `due_at` (Unix seconds).
#[derive(Clone, Debug)]
pub struct PlannedNotification {
    pub key: String,
    pub series_id: i64,
    pub mode: NotificationMode,
    pub season: i64,
    pub episode_id: Option<i64>,
    pub due_at: i64,
    pub content: String,
    pub episode_ids: Vec<i64>,
    pub awaiting_confirmation: bool,
}

/// A planned notification as plain values.
pub struct PlanView {
    pub key: Seq<char>,
    pub series_id: i64,
    pub mode: NotificationMode,
    pub season: i64,
    pub episode_id: Option<i64>,
    pub due_at: i64,
    pub content: Seq<char>,
    pub episode_ids: Seq<i64>,
    pub awaiting_confirmation: bool,
}

impl View for PlannedNotification {
    type V = PlanView;

    open spec fn view(&self) -> PlanView {
        PlanView {
            key: self.key@,
            series_id: self.series_id,
            mode: self.mode,
            season: self.season,
            episode_id: self.episode_id,
            due_at: self.due_at,
            content: self.content@,
            episode_ids: self.episode_ids@,
            awaiting_confirmation: self.awaiting_confirmation,
        }
    }
}

/// The views of a list of planned notifications.
pub open spec fn plan_views(v: Seq<PlannedNotification>) -> Seq<PlanView> {
    v.map_values(|p: PlannedNotification| p@)
}

} // verus!
