//! Discord webhook rules: how a response is classified, and the embed title and link.
use vstd::prelude::*;
use crate::text::{
    chars_of, decimal, push_decimal, push_str, truncate_utf16, utf16_truncated,
};

verus! {

/// The outcome of one webhook request.
#[derive(Clone, Copy, Debug, PartialEq, Eq, Structural)]
pub enum Delivery {
    /// Discord accepted the message.
    Sent,
    /// Discord asked to wait before the next request.
    RateLimited { retry_seconds: u64 },
    /// The connection failed before anything was sent; safe to retry.
    Retryable { retry_seconds: u64 },
    /// The webhook is unauthorised or gone.
    Disabled,
    /// Discord refused this message.
    Rejected,
    /// The message may or may not have arrived.
    Uncertain,
}

/// Seconds to wait after a connection that failed before sending.
pub const CONNECT_RETRY_SECONDS: u64 = 30;

/// The outcome of a webhook request that received HTTP status `status`;
/// `rate_limit_seconds` is the wait Discord asked for when it answered 429.
pub open spec fn delivery_for_status(status: u16, rate_limit_seconds: u64) -> Delivery {
    if 200 <= status <= 299 {
        Delivery::Sent
    } else if status == 429 {
        Delivery::RateLimited { retry_seconds: rate_limit_seconds }
    } else if status == 401 || status == 403 || status == 404 {
        Delivery::Disabled
    } else if 400 <= status <= 499 {
        Delivery::Rejected
    } else {
        Delivery::Uncertain
    }
}

/// Classifies a webhook response by its HTTP status. A proxy or server error
/// may follow an accepted message, so it is uncertain.
pub fn classify_status(status: u16, rate_limit_seconds: u64) -> (d: Delivery)
    ensures
        d == delivery_for_status(status, rate_limit_seconds),
{
    if 200 <= status && status <= 299 {
        Delivery::Sent
    } else if status == 429 {
        Delivery::RateLimited { retry_seconds: rate_limit_seconds }
    } else if status == 401 || status == 403 || status == 404 {
        Delivery::Disabled
    } else if 400 <= status && status <= 499 {
        Delivery::Rejected
    } else {
        Delivery::Uncertain
    }
}

/// Classifies a request that got no response: a failed connection sent nothing
/// and may be retried; any other failure may have delivered the message.
pub fn classify_send_error(connect_failed: bool) -> (d: Delivery)
    ensures
        connect_failed ==> d == (Delivery::Retryable { retry_seconds: CONNECT_RETRY_SECONDS }),
        !connect_failed ==> d == Delivery::Uncertain,
{
    if connect_failed {
        Delivery::Retryable { retry_seconds: CONNECT_RETRY_SECONDS }
    } else {
        Delivery::Uncertain
    }
}

/// Series details shown in an embed.
#[derive(Clone, Copy)]
pub struct SeriesMetadata<'a> {
    pub title: &'a str,
    pub year: Option<i32>,
    pub imdb_id: Option<&'a str>,
}

/// Discord limits embed titles to 256 UTF-16 code units.
pub const TITLE_LIMIT: usize = 256;

/// The embed title before truncation: the series title, with `(year)` when the year is positive.
pub open spec fn series_title_text(title: Seq<char>, year: Option<i32>) -> Seq<char> {
    match year {
        Some(y) => if y > 0 {
            title + " ("@ + decimal(y as int) + ")"@
        } else {
            title
        },
        None => title,
    }
}

/// The embed title of a series.
pub fn series_title(series: SeriesMetadata<'_>) -> (t: String)
    ensures
        t@ == utf16_truncated(series_title_text(series.title@, series.year), TITLE_LIMIT as nat),
{
    let mut title = String::new();
    push_str(&mut title, series.title);
    match series.year {
        Some(y) => {
            if y > 0 {
                push_str(&mut title, " (");
                push_decimal(&mut title, y as i64);
                push_str(&mut title, ")");
            }
        },
        None => {},
    }
    truncate_utf16(title.as_str(), TITLE_LIMIT)
}

/// Whether `c` is an ASCII digit.
pub open spec fn is_digit(c: char) -> bool {
    '0' <= c <= '9'
}

/// Whether `id` is an IMDb title identifier: `tt` followed by one or more digits.
pub open spec fn is_imdb_id(id: Seq<char>) -> bool {
    &&& id.len() > 2
    &&& id[0] == 't'
    &&& id[1] == 't'
    &&& forall|i: int| 2 <= i < id.len() ==> is_digit(#[trigger] id[i])
}

/// The IMDb page of a series, when its identifier is well formed.
pub fn imdb_series_url(id: &str) -> (r: Option<String>)
    ensures
        is_imdb_id(id@) ==> (r matches Some(u) && u@ == "https://www.imdb.com/title/"@ + id@ + "/"@),
        !is_imdb_id(id@) ==> r is None,
{
    let cs = chars_of(id);
    if cs.len() <= 2 || cs[0] != 't' || cs[1] != 't' {
        return None;
    }
    for i in 2..cs.len()
        invariant
            cs@ == id@,
            cs@.len() > 2,
            forall|j: int| 2 <= j < i ==> is_digit(#[trigger] cs@[j]),
    {
        if !('0' <= cs[i] && cs[i] <= '9') {
            return None;
        }
    }
    let mut url = String::new();
    push_str(&mut url, "https://www.imdb.com/title/");
    push_str(&mut url, id);
    push_str(&mut url, "/");
    Some(url)
}

} // verus!
