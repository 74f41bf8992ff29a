//! Show episode records carrying the fields filled in over the pipeline:
//! numbering from the file name at construction, series and title once an
//! identity is resolved.

use vstd::prelude::*;
use crate::cms::NumberingError;
use crate::cms::spec_basename;
use crate::cms::has_marker;
use crate::cms::spec_season_val;
use crate::cms::spec_episode_val;
use crate::cms::spec_video_error;
use crate::cms::Episode as ClassifiedEpisode;

verus! {

/// An episode video file with its (still unresolved) series fields.
#[derive(Debug)]
pub struct Episode {
    pub src: String,
    pub series: String,
    pub season: i32,
    pub number: i32,
    pub title: Option<String>,
}

impl Episode {
    /// Build an episode record from a path.  Season and episode number
    /// come from the file name's numbering marker and stay `0` when the
    /// name holds none; a digit group too large for `i32` is an error.
    /// Series and title start empty.
    pub fn from_path(path: &str) -> (r: Result<Episode, NumberingError>)
        ensures
            match r {
                Ok(e) => {
                    &&& spec_video_error(path@) is None
                    &&& e.src@ == path@
                    &&& e.series@ == Seq::<char>::empty()
                    &&& e.title is None
                    &&& if has_marker(spec_basename(path@)) {
                        e.season == spec_season_val(spec_basename(path@)) && e.number
                            == spec_episode_val(spec_basename(path@))
                    } else {
                        e.season == 0 && e.number == 0
                    }
                },
                Err(err) => spec_video_error(path@) == Some(err),
            },
    {
        match ClassifiedEpisode::from_path(path) {
            Ok(Some(e)) => Ok(
                Episode {
                    src: e.path,
                    series: String::new(),
                    season: e.season,
                    number: e.number,
                    title: None,
                },
            ),
            Ok(None) => Ok(
                Episode {
                    src: path.to_owned(),
                    series: String::new(),
                    season: 0,
                    number: 0,
                    title: None,
                },
            ),
            Err(err) => Err(err),
        }
    }
}

} // verus!
