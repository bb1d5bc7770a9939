//! Decisions of the JSON API: paging, request values, and the replies to
//! refused or failed requests.
use vstd::prelude::*;
use crate::discord::Delivery;
use crate::model::Show;
use crate::text::{decimal, push_str, push_u64, same_text};

verus! {

/// A mode choice for one show: follow the default, or a mode of its own.
#[derive(Clone, Copy, Debug, PartialEq, Eq, Structural)]
pub enum ShowMode {
    Default,
    Episode,
    Season,
}

/// The request name of a show mode.
pub open spec fn show_mode_text(m: ShowMode) -> Seq<char> {
    match m {
        ShowMode::Default => "default"@,
        ShowMode::Episode => "episode"@,
        ShowMode::Season => "season"@,
    }
}

impl ShowMode {
    /// The request name: `default`, `episode` or `season`.
    pub fn as_str(&self) -> (s: &'static str)
        ensures
            s@ == show_mode_text(*self),
    {
        match self {
            ShowMode::Default => "default",
            ShowMode::Episode => "episode",
            ShowMode::Season => "season",
        }
    }

    /// Reads a request name; anything else is refused.
    pub fn parse(value: &str) -> (r: Option<ShowMode>)
        ensures
            r matches Some(m) ==> show_mode_text(m) == value@,
            r is None ==> forall|m: ShowMode| show_mode_text(m) != value@,
    {
        if same_text(value, "default") {
            Some(ShowMode::Default)
        } else if same_text(value, "episode") {
            Some(ShowMode::Episode)
        } else if same_text(value, "season") {
            Some(ShowMode::Season)
        } else {
            None
        }
    }
}

/// Which notifications a listing shows.
#[derive(Clone, Copy, Debug, PartialEq, Eq, Structural)]
pub enum NotificationView {
    /// Pending notifications that the show's policy would deliver, soonest first.
    Upcoming,
    /// Attempted notifications, latest first.
    History,
}

/// Notifications per page when the request names no limit.
pub const DEFAULT_PAGE_LIMIT: u32 = 50;

/// Notifications per page: the requested number (50 by default), kept within 1 to 100.
pub fn page_limit(limit: Option<u32>) -> (n: u32)
    ensures
        n == (match limit {
            None => 50u32,
            Some(l) => if l < 1 {
                1u32
            } else if l > 100 {
                100u32
            } else {
                l
            },
        }),
{
    let l = match limit {
        Some(l) => l,
        None => DEFAULT_PAGE_LIMIT,
    };
    if l < 1 {
        1
    } else if l > 100 {
        100
    } else {
        l
    }
}

/// Notifications skipped: the requested number, none by default.
pub fn page_offset(offset: Option<u32>) -> (n: u32)
    ensures
        n == (match offset {
            None => 0u32,
            Some(o) => o,
        }),
{
    match offset {
        Some(o) => o,
        None => 0,
    }
}

/// Why a show's progress page is refused.
#[derive(Clone, Copy, Debug, PartialEq, Eq, Structural)]
pub enum ProgressRefusal {
    /// No such show (404).
    UnknownShow,
    /// The show is no longer in Sonarr (404).
    RemovedShow,
    /// Sonarr could not provide the series (502).
    SonarrUnavailable,
}

impl ProgressRefusal {
    /// The HTTP status of the refusal.
    pub fn status(self) -> (s: u16)
        ensures
            s == (match self {
                ProgressRefusal::UnknownShow => 404u16,
                ProgressRefusal::RemovedShow => 404u16,
                ProgressRefusal::SonarrUnavailable => 502u16,
            }),
    {
        match self {
            ProgressRefusal::UnknownShow => 404,
            ProgressRefusal::RemovedShow => 404,
            ProgressRefusal::SonarrUnavailable => 502,
        }
    }

    /// The error text of the refusal.
    pub fn message(self) -> (m: &'static str)
        ensures
            m@ == (match self {
                ProgressRefusal::UnknownShow => "Show not found."@,
                ProgressRefusal::RemovedShow =>
                    "This show has been removed from Sonarr. Restore it there to view current progress."@,
                ProgressRefusal::SonarrUnavailable =>
                    "Cannot load current series progress from Sonarr. Please retry."@,
            }),
    {
        match self {
            ProgressRefusal::UnknownShow => "Show not found.",
            ProgressRefusal::RemovedShow =>
                "This show has been removed from Sonarr. Restore it there to view current progress.",
            ProgressRefusal::SonarrUnavailable =>
                "Cannot load current series progress from Sonarr. Please retry.",
        }
    }
}

/// Whether the progress of show `id` can be built: the show is stored and
/// active, and Sonarr answered with that very series.
pub fn progress_refusal(id: i64, show: Option<&Show>, sonarr_series_id: Option<i64>) -> (r: Option<ProgressRefusal>)
    ensures
        r == (match show {
            None => Some(ProgressRefusal::UnknownShow),
            Some(s) => if !s.active {
                Some(ProgressRefusal::RemovedShow)
            } else if sonarr_series_id != Some(id) {
                Some(ProgressRefusal::SonarrUnavailable)
            } else {
                None
            },
        }),
{
    match show {
        None => Some(ProgressRefusal::UnknownShow),
        Some(s) => {
            if !s.active {
                Some(ProgressRefusal::RemovedShow)
            } else if sonarr_series_id != Some(id) {
                Some(ProgressRefusal::SonarrUnavailable)
            } else {
                None
            }
        },
    }
}

/// The error text when embed colours are refused (422).
pub fn invalid_colors_message() -> (m: &'static str)
    ensures
        m@ == "Colors must be RGB integers between 0 and 16777215."@,
{
    "Colors must be RGB integers between 0 and 16777215."
}

/// The reply to a test notification.
#[derive(Clone, Debug)]
pub struct TestReply {
    pub status: u16,
    pub error: Option<String>,
    pub retry_after: Option<u64>,
}

/// The reply to a test notification, as values.
pub struct TestReplyView {
    pub status: u16,
    pub error: Option<Seq<char>>,
    pub retry_after: Option<u64>,
}

impl View for TestReply {
    type V = TestReplyView;

    open spec fn view(&self) -> TestReplyView {
        TestReplyView {
            status: self.status,
            error: match self.error {
                Some(e) => Some(e@),
                None => None,
            },
            retry_after: self.retry_after,
        }
    }
}

/// The reply to a test notification that ended with `result` (`None` when the
/// notification no longer exists).
pub open spec fn spec_test_reply(result: Option<Delivery>) -> TestReplyView {
    match result {
        Some(Delivery::Sent) => TestReplyView { status: 204, error: None, retry_after: None },
        None => TestReplyView {
            status: 404,
            error: Some("Notification no longer exists. Refresh activity."@),
            retry_after: None,
        },
        Some(Delivery::RateLimited { retry_seconds }) => TestReplyView {
            status: 429,
            error: Some(
                "Discord rate limited the test. Try again in "@ + decimal(retry_seconds as int)
                    + " seconds."@,
            ),
            retry_after: Some(retry_seconds),
        },
        Some(Delivery::Retryable { .. }) => TestReplyView {
            status: 502,
            error: Some("Could not connect to Discord. The test was not sent."@),
            retry_after: None,
        },
        Some(Delivery::Disabled) => TestReplyView {
            status: 502,
            error: Some("Discord rejected the webhook. Check Server Core configuration."@),
            retry_after: None,
        },
        Some(Delivery::Rejected) => TestReplyView {
            status: 502,
            error: Some("Discord rejected the test message."@),
            retry_after: None,
        },
        Some(Delivery::Uncertain) => TestReplyView {
            status: 502,
            error: Some(
                "Test delivery could not be confirmed. It may have arrived; check Discord before sending another test."@,
            ),
            retry_after: None,
        },
    }
}

fn owned(s: &str) -> (r: String)
    ensures
        r@ == s@,
{
    s.to_owned()
}

/// Builds the reply to a test notification.
pub fn test_reply(result: Option<Delivery>) -> (r: TestReply)
    ensures
        r@ == spec_test_reply(result),
{
    match result {
        Some(Delivery::Sent) => TestReply { status: 204, error: None, retry_after: None },
        None => TestReply {
            status: 404,
            error: Some(owned("Notification no longer exists. Refresh activity.")),
            retry_after: None,
        },
        Some(Delivery::RateLimited { retry_seconds }) => {
            let mut m = String::new();
            push_str(&mut m, "Discord rate limited the test. Try again in ");
            push_u64(&mut m, retry_seconds);
            push_str(&mut m, " seconds.");
            TestReply { status: 429, error: Some(m), retry_after: Some(retry_seconds) }
        },
        Some(Delivery::Retryable { .. }) => TestReply {
            status: 502,
            error: Some(owned("Could not connect to Discord. The test was not sent.")),
            retry_after: None,
        },
        Some(Delivery::Disabled) => TestReply {
            status: 502,
            error: Some(owned("Discord rejected the webhook. Check Server Core configuration.")),
            retry_after: None,
        },
        Some(Delivery::Rejected) => TestReply {
            status: 502,
            error: Some(owned("Discord rejected the test message.")),
            retry_after: None,
        },
        Some(Delivery::Uncertain) => TestReply {
            status: 502,
            error: Some(
                owned(
                    "Test delivery could not be confirmed. It may have arrived; check Discord before sending another test.",
                ),
            ),
            retry_after: None,
        },
    }
}

} // verus!
