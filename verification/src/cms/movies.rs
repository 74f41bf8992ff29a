//! Film records.  Film handling is a stub in this tool: a film starts with
//! an empty title and year until an identity is chosen.

use vstd::prelude::*;

verus! {

/// A film video file.
#[derive(Debug)]
pub struct Film {
    pub src: String,
    pub title: String,
    pub year: i32,
}

impl Film {
    /// A fresh film record for a discovered file: no title, no year yet.
    pub fn from_path(path: &str) -> (r: Film)
        ensures
            r.src@ == path@,
            r.title@ == Seq::<char>::empty(),
            r.year == 0,
    {
        Film { src: path.to_owned(), title: String::new(), year: 0 }
    }
}

} // verus!
