//! Sonarr's series and episode records, and the checks applied to what Sonarr returns.
use std::collections::HashSet;
use vstd::prelude::*;
use crate::text::{decimal, push_decimal, push_str, trim_trailing_slashes, without_trailing_slashes};

verus! {

/// Sonarr's series status.
#[derive(Clone, Copy, Debug, PartialEq, Eq, Structural)]
pub enum SeriesStatus {
    Continuing,
    Ended,
    Upcoming,
    Deleted,
    Unknown,
}

/// Sonarr's finale marker on an episode.
#[derive(Clone, Copy, Debug, PartialEq, Eq, Structural)]
pub enum FinaleType {
    Season,
    Series,
    Midseason,
    Unknown,
}

/// A Sonarr series.
#[derive(Clone, Debug)]
pub struct Series {
    pub id: i64,
    pub title: String,
    pub monitored: bool,
    pub status: SeriesStatus,
    pub year: Option<i32>,
    pub imdb_id: Option<String>,
}

/// A Sonarr episode; `air_date_utc` is its air time in Unix seconds (UTC).
#[derive(Clone, Debug)]
pub struct Episode {
    pub id: i64,
    pub series_id: i64,
    pub season_number: i64,
    pub episode_number: i64,
    pub title: String,
    pub air_date_utc: Option<i64>,
    pub has_file: bool,
    pub monitored: bool,
    pub finale_type: Option<FinaleType>,
}

broadcast use vstd::std_specs::hash::group_hash_axioms;

/// Largest accepted Sonarr API response body.
pub const API_BODY_LIMIT: usize = 33554432;

/// Largest accepted poster body.
pub const POSTER_BODY_LIMIT: usize = 5242880;

/// Why an episode list from Sonarr is refused.
#[derive(Clone, Copy, Debug, PartialEq, Eq, Structural)]
pub enum EpisodeListError {
    /// An episode of another series, or an identifier, season or number out of range.
    InvalidIdentifiers,
    /// Two episodes share an identifier.
    DuplicateIdentifiers,
}

/// Whether `e` is a well-formed episode of series `series_id`.
pub open spec fn well_identified(e: Episode, series_id: i64) -> bool {
    e.series_id == series_id && e.id > 0 && e.season_number >= 0 && e.episode_number > 0
}

/// Whether no two episodes share an identifier.
pub open spec fn distinct_ids(eps: Seq<Episode>) -> bool {
    forall|i: int, j: int|
        0 <= i < j < eps.len() ==> (#[trigger] eps[i]).id != (#[trigger] eps[j]).id
}

/// Checks the episode list Sonarr returned for series `series_id`.
pub fn check_episodes(series_id: i64, episodes: &[Episode]) -> (r: Result<(), EpisodeListError>)
    ensures
        !(forall|i: int| 0 <= i < episodes@.len() ==> well_identified(#[trigger] episodes@[i], series_id))
            ==> r == Err::<(), EpisodeListError>(EpisodeListError::InvalidIdentifiers),
        (forall|i: int| 0 <= i < episodes@.len() ==> well_identified(#[trigger] episodes@[i], series_id))
            ==> (r is Ok <==> distinct_ids(episodes@)) && (r is Err ==> r == Err::<
            (),
            EpisodeListError,
        >(EpisodeListError::DuplicateIdentifiers)),
{
    for i in 0..episodes.len()
        invariant
            forall|j: int| 0 <= j < i ==> well_identified(#[trigger] episodes@[j], series_id),
    {
        let e = &episodes[i];
        if !(e.series_id == series_id && e.id > 0 && e.season_number >= 0 && e.episode_number > 0) {
            assert(!well_identified(episodes@[i as int], series_id));
            return Err(EpisodeListError::InvalidIdentifiers);
        }
    }
    let mut ids: HashSet<i64> = HashSet::new();
    for i in 0..episodes.len()
        invariant
            forall|j: int| 0 <= j < episodes@.len() ==> well_identified(#[trigger] episodes@[j], series_id),
            forall|x: i64| #[trigger] ids@.contains(x) <==> exists|j: int| 0 <= j < i && (#[trigger] episodes@[j]).id == x,
            forall|a: int, b: int|
                0 <= a < b < i ==> (#[trigger] episodes@[a]).id != (#[trigger] episodes@[b]).id,
    {
        let id = episodes[i].id;
        if !ids.insert(id) {
            proof {
                let j = choose|j: int| 0 <= j < i && (#[trigger] episodes@[j]).id == id;
                assert(episodes@[j].id == episodes@[i as int].id);
            }
            return Err(EpisodeListError::DuplicateIdentifiers);
        }
        proof {
            assert forall|x: i64| #[trigger] ids@.contains(x) implies exists|j: int| 0 <= j < i + 1 && (#[trigger] episodes@[j]).id == x by {
                if x == id {
                    assert(episodes@[i as int].id == x);
                } else {
                    let j = choose|j: int| 0 <= j < i && (#[trigger] episodes@[j]).id == x;
                    assert(0 <= j < i + 1);
                }
            }
        }
    }
    Ok(())
}

/// Whether every series identifier from Sonarr is positive.
pub fn series_ids_valid(series: &[Series]) -> (r: bool)
    ensures
        r == forall|i: int| 0 <= i < series@.len() ==> (#[trigger] series@[i]).id > 0,
{
    for i in 0..series.len()
        invariant
            forall|j: int| 0 <= j < i ==> (#[trigger] series@[j]).id > 0,
    {
        if series[i].id <= 0 {
            assert(series@[i as int].id <= 0);
            return false;
        }
    }
    true
}

/// The API path under a Sonarr base path: `{path without trailing slashes}/api/v3/`.
pub fn api_base_path(path: &str) -> (r: String)
    ensures
        r@ == without_trailing_slashes(path@) + "/api/v3/"@,
{
    let mut r = trim_trailing_slashes(path);
    push_str(&mut r, "/api/v3/");
    r
}

/// The relative path of a series' poster: `mediacover/{id}/poster.jpg`, for a
/// positive identifier only.
pub fn poster_path(id: i64) -> (r: Option<String>)
    ensures
        id > 0 ==> (r matches Some(p) && p@ == "mediacover/"@ + decimal(id as int) + "/poster.jpg"@),
        id <= 0 ==> r is None,
{
    if id <= 0 {
        return None;
    }
    let mut p = String::new();
    push_str(&mut p, "mediacover/");
    push_decimal(&mut p, id);
    push_str(&mut p, "/poster.jpg");
    Some(p)
}

/// The relative path of one series: `series/{id}`.
pub fn series_path(id: i64) -> (r: String)
    ensures
        r@ == "series/"@ + decimal(id as int),
{
    let mut p = String::new();
    push_str(&mut p, "series/");
    push_decimal(&mut p, id);
    p
}

/// Whether `body` starts like a JPEG file (`FF D8 FF`).
pub fn is_jpeg(body: &[u8]) -> (r: bool)
    ensures
        r == (body@.len() >= 3 && body@[0] == 0xff && body@[1] == 0xd8 && body@[2] == 0xff),
{
    body.len() >= 3 && body[0] == 0xff && body[1] == 0xd8 && body[2] == 0xff
}

/// Whether a response body of `received` bytes may take a further `chunk`
/// bytes without exceeding `limit`.
pub fn accepts_chunk(received: usize, chunk: usize, limit: usize) -> (r: bool)
    ensures
        r == (received + chunk <= limit),
{
    received <= limit && chunk <= limit - received
}

} // verus!
