//! Canonical destination naming: zero-padded season and episode numbers and
//! the `Series/<Show>/Season NN/<Show> - sNNeNN[ - <Title>].<ext>` layout.

use vstd::prelude::*;
use crate::spec_sanitize;
use crate::correct_file_name;

verus! {

/// The decimal digit character for a value between 0 and 9.
pub open spec fn spec_digit_char(d: int) -> char {
    if d == 0 {
        '0'
    } else if d == 1 {
        '1'
    } else if d == 2 {
        '2'
    } else if d == 3 {
        '3'
    } else if d == 4 {
        '4'
    } else if d == 5 {
        '5'
    } else if d == 6 {
        '6'
    } else if d == 7 {
        '7'
    } else if d == 8 {
        '8'
    } else {
        '9'
    }
}

/// The decimal rendering of a non-negative number, without padding.
pub open spec fn spec_dec_digits(n: int) -> Seq<char>
    decreases n,
{
    if n < 10 {
        seq![spec_digit_char(n)]
    } else {
        spec_dec_digits(n / 10).push(spec_digit_char(n % 10))
    }
}

/// The decimal rendering of a non-negative number, zero-padded on the left
/// to at least two digits.  Wider numbers are rendered in full.
pub open spec fn spec_pad2(n: int) -> Seq<char> {
    if n < 10 {
        seq!['0'] + spec_dec_digits(n)
    } else {
        spec_dec_digits(n)
    }
}

/// A padded number is never narrower than two digits.
pub proof fn lemma_pad2_min_width(n: int)
    ensures
        spec_pad2(n).len() >= 2,
{
    if n >= 10 {
        assert(spec_dec_digits(n) == spec_dec_digits(n / 10).push(spec_digit_char(n % 10)));
    }
}

/// A `String` holding exactly the decimal digit `d`.
fn digit_str(d: u64) -> (r: String)
    requires
        d < 10,
    ensures
        r@ =~= seq![spec_digit_char(d as int)],
{
    let r = if d == 0 {
        proof {
            reveal_strlit("0");
        }
        "0"
    } else if d == 1 {
        proof {
            reveal_strlit("1");
        }
        "1"
    } else if d == 2 {
        proof {
            reveal_strlit("2");
        }
        "2"
    } else if d == 3 {
        proof {
            reveal_strlit("3");
        }
        "3"
    } else if d == 4 {
        proof {
            reveal_strlit("4");
        }
        "4"
    } else if d == 5 {
        proof {
            reveal_strlit("5");
        }
        "5"
    } else if d == 6 {
        proof {
            reveal_strlit("6");
        }
        "6"
    } else if d == 7 {
        proof {
            reveal_strlit("7");
        }
        "7"
    } else if d == 8 {
        proof {
            reveal_strlit("8");
        }
        "8"
    } else {
        proof {
            reveal_strlit("9");
        }
        "9"
    };
    r.to_owned()
}

/// Render a non-negative number in decimal, without padding.
pub fn dec_string(n: u64) -> (r: String)
    ensures
        r@ == spec_dec_digits(n as int),
    decreases n,
{
    if n < 10 {
        digit_str(n)
    } else {
        let mut s = dec_string(n / 10);
        let d = digit_str(n % 10);
        s.append(d.as_str());
        proof {
            assert(s@ =~= spec_dec_digits(n as int));
        }
        s
    }
}

/// Render a non-negative number in decimal, zero-padded to at least two
/// digits.  Season `3` renders as `03`; wider numbers are not truncated.
pub fn pad2(n: i32) -> (r: String)
    requires
        n >= 0,
    ensures
        r@ == spec_pad2(n as int),
        r@.len() >= 2,
{
    proof {
        lemma_pad2_min_width(n as int);
    }
    let v = n as u64;
    if v < 10 {
        proof {
            reveal_strlit("0");
        }
        let mut s = "0".to_owned();
        let d = digit_str(v);
        s.append(d.as_str());
        proof {
            assert(s@ =~= spec_pad2(n as int));
        }
        s
    } else {
        dec_string(v)
    }
}

/// The canonical file name of one episode, before a root directory is
/// prepended: the whole formatted name is sanitized, and an empty title
/// leaves no trailing separator.
pub open spec fn spec_episode_file_name(
    show: Seq<char>,
    season: int,
    episode: int,
    title: Seq<char>,
    ext: Seq<char>,
) -> Seq<char> {
    spec_sanitize(
        show + " - s"@ + spec_pad2(season) + "e"@ + spec_pad2(episode) + (
        if title.len() == 0 {
            Seq::<char>::empty()
        } else {
            " - "@ + title
        }) + "."@ + ext,
    )
}

/// A destination below the platform "videos" root, kept as the three path
/// segments that are created in turn: `Series/<show>/<season>/<file>`.
#[derive(Debug)]
pub struct ResolvedDestination {
    /// Sanitized show name: the directory for the whole series.
    pub show_dir: String,
    /// `Season NN` directory.
    pub season_dir: String,
    /// Final episode file name.
    pub file_name: String,
}

impl ResolvedDestination {
    /// All three segments joined with `/`, below the `Series` root segment.
    pub fn relative_path(&self) -> (r: String)
        ensures
            r@ == "Series/"@ + self.show_dir@ + "/"@ + self.season_dir@ + "/"@ + self.file_name@,
    {
        proof {
            reveal_strlit("Series/");
            reveal_strlit("/");
        }
        let mut s = "Series/".to_owned();
        s.append(self.show_dir.as_str());
        s.append("/");
        s.append(self.season_dir.as_str());
        s.append("/");
        s.append(self.file_name.as_str());
        s
    }
}

/// Build the canonical destination for one episode: sanitized show
/// directory, zero-padded season directory, and the sanitized episode file
/// name.  An empty title is a valid state and leaves no ` - ` suffix.
pub fn resolve_destination(
    show_name: &str,
    season: i32,
    episode: i32,
    title: &str,
    ext: &str,
) -> (r: ResolvedDestination)
    requires
        season >= 0,
        episode >= 0,
    ensures
        r.show_dir@ == spec_sanitize(show_name@),
        r.season_dir@ == "Season "@ + spec_pad2(season as int),
        r.file_name@ == spec_episode_file_name(
            show_name@,
            season as int,
            episode as int,
            title@,
            ext@,
        ),
{
    let show_dir = correct_file_name(show_name);
    let season_pad = pad2(season);
    let episode_pad = pad2(episode);

    proof {
        reveal_strlit("Season ");
    }
    let mut season_dir = "Season ".to_owned();
    season_dir.append(season_pad.as_str());

    let mut raw = show_name.to_owned();
    raw.append(" - s");
    raw.append(season_pad.as_str());
    raw.append("e");
    raw.append(episode_pad.as_str());
    if title.unicode_len() > 0 {
        raw.append(" - ");
        raw.append(title);
    }
    raw.append(".");
    raw.append(ext);
    let file_name = correct_file_name(raw.as_str());

    ResolvedDestination { show_dir, season_dir, file_name }
}

} // verus!
