//! Data returned by the remote metadata catalog, and the URLs derived from
//! it.  The transport itself (HTTP search and detail lookups) is a thin
//! collaborator outside the library; these records carry what it returns.

use vstd::prelude::*;

pub mod search;
pub mod tv_episodes;

verus! {

/// One TV search result, as the catalog's search endpoint returns it.
#[derive(Debug)]
pub struct TvResult {
    pub poster_path: String,
    pub id: i32,
    pub first_air_date: String,
    pub original_name: String,
}

/// One episode's canonical numbering and title, as the catalog's episode
/// detail endpoint returns it.  An empty `name` is a valid, expected state.
#[derive(Debug)]
pub struct Episode {
    pub episode_number: i32,
    pub name: String,
    pub season_number: i32,
}

/// The full image URL of a poster reference, at the original size.
pub fn poster(poster_path: &str) -> (r: String)
    ensures
        r@ == "https://image.tmdb.org/t/p/"@ + "original"@ + poster_path@,
{
    let mut s = "https://image.tmdb.org/t/p/".to_owned();
    s.append("original");
    s.append(poster_path);
    s
}

} // verus!
