//! Canonical episode details returned by the catalog's episode endpoint.

use vstd::prelude::*;

verus! {

/// One episode's canonical numbering and title.  An empty `name` is a
/// valid, expected state: the episode simply has no title.
#[derive(Debug)]
pub struct Episode {
    pub episode_number: i32,
    pub name: String,
    pub season_number: i32,
}

} // verus!
