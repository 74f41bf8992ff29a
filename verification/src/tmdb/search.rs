//! Candidate identities returned by the catalog's search endpoints.  The
//! order of the `results` lists is the catalog's own ranking; it is kept
//! as returned and shown to the operator 1-indexed.

use vstd::prelude::*;

verus! {

/// The film candidates of one search call.
#[derive(Debug)]
pub struct Movies {
    pub results: Vec<Movie>,
}

/// One film candidate.  A missing poster is a valid state and must not
/// abort rendering the candidate.
#[derive(Debug)]
pub struct Movie {
    pub poster_path: Option<String>,
    pub release_date: String,
    pub id: i32,
    pub original_title: String,
    pub title: String,
}

/// The show candidates of one search call.
#[derive(Debug)]
pub struct Shows {
    pub results: Vec<Show>,
}

/// One show candidate.
#[derive(Debug)]
pub struct Show {
    pub poster_path: String,
    pub id: i32,
    pub first_air_date: String,
    pub original_name: String,
}

} // verus!
