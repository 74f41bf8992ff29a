//! Episode classification and grouping.
//!
//! A file is an episode when its file name holds a numbering marker of the
//! form `S<digits>E<digits>` (any case).  The text before the first marker
//! is the raw series key used to bucket files; it is deliberately not
//! normalized, so superficially different prefixes form distinct buckets.

use vstd::prelude::*;
use crate::str_eq;

pub mod movies;
pub mod shows;

verus! {

/// An ASCII decimal digit.
pub open spec fn is_digit_char(c: char) -> bool {
    48 <= c as u32 && c as u32 <= 57
}

/// The season letter of a numbering marker.
pub open spec fn is_s_char(c: char) -> bool {
    c == 'S' || c == 's'
}

/// The episode letter of a numbering marker.
pub open spec fn is_e_char(c: char) -> bool {
    c == 'E' || c == 'e'
}

/// The numeric value of one decimal digit character.
pub open spec fn digit_val(c: char) -> int {
    c as u32 - 48
}

/// The value of a sequence of decimal digit characters.
pub open spec fn digits_val(ds: Seq<char>) -> int
    decreases ds.len(),
{
    if ds.len() == 0 {
        0
    } else {
        10 * digits_val(ds.drop_last()) + digit_val(ds.last())
    }
}

/// The first position at or after `i` that does not hold a digit
/// (`s.len()` when digits reach the end of the string).
pub open spec fn digit_run_end(s: Seq<char>, i: int) -> int
    decreases s.len() - i,
{
    if i < 0 || i >= s.len() || !is_digit_char(s[i]) {
        i
    } else {
        digit_run_end(s, i + 1)
    }
}

/// A numbering marker starts at position `i`: an `S` or `s`, at least one
/// digit, an `E` or `e`, and at least one digit again.  The digit groups
/// are maximal runs, exactly as the `S<digits>E<digits>` pattern matches.
pub open spec fn marker_at(s: Seq<char>, i: int) -> bool {
    &&& 0 <= i < s.len()
    &&& is_s_char(s[i])
    &&& i + 1 < s.len()
    &&& is_digit_char(s[i + 1])
    &&& {
        let p = digit_run_end(s, i + 1);
        &&& p < s.len()
        &&& is_e_char(s[p])
        &&& p + 1 < s.len()
        &&& is_digit_char(s[p + 1])
    }
}

/// The file name holds a numbering marker somewhere.
pub open spec fn has_marker(s: Seq<char>) -> bool {
    exists|i: int| marker_at(s, i)
}

/// The first position at or after `k` where a marker starts (`s.len()`
/// when there is none).
pub open spec fn marker_start_from(s: Seq<char>, k: int) -> int
    decreases s.len() - k,
{
    if k < 0 || k >= s.len() {
        s.len() as int
    } else if marker_at(s, k) {
        k
    } else {
        marker_start_from(s, k + 1)
    }
}

/// Start of the first numbering marker.
pub open spec fn marker_start(s: Seq<char>) -> int {
    marker_start_from(s, 0)
}

/// End of the season digit group of the first marker.
pub open spec fn season_digits_end(s: Seq<char>) -> int {
    digit_run_end(s, marker_start(s) + 1)
}

/// End of the episode digit group of the first marker.
pub open spec fn episode_digits_end(s: Seq<char>) -> int {
    digit_run_end(s, season_digits_end(s) + 1)
}

/// The season digit group of the first marker.
pub open spec fn spec_season_digits(s: Seq<char>) -> Seq<char> {
    s.subrange(marker_start(s) + 1, season_digits_end(s))
}

/// The episode digit group of the first marker.
pub open spec fn spec_episode_digits(s: Seq<char>) -> Seq<char> {
    s.subrange(season_digits_end(s) + 1, episode_digits_end(s))
}

/// Season number carried by the file name's first marker.
pub open spec fn spec_season_val(s: Seq<char>) -> int {
    digits_val(spec_season_digits(s))
}

/// Episode number carried by the file name's first marker.
pub open spec fn spec_episode_val(s: Seq<char>) -> int {
    digits_val(spec_episode_digits(s))
}

/// The raw series key: the untrimmed text before the first marker.
pub open spec fn spec_series_key(s: Seq<char>) -> Seq<char> {
    s.take(marker_start(s))
}

/// Position of the last occurrence of `c` (`-1` when absent).
pub open spec fn last_index_of(p: Seq<char>, c: char) -> int
    decreases p.len(),
{
    if p.len() == 0 {
        -1
    } else if p.last() == c {
        p.len() - 1
    } else {
        last_index_of(p.drop_last(), c)
    }
}

/// The file name of a path: the text after the last `/`.
pub open spec fn spec_basename(p: Seq<char>) -> Seq<char> {
    p.subrange(last_index_of(p, '/') + 1, p.len() as int)
}

/// The extension of a path: the text after the last `.` of the file name,
/// absent when the file name has no `.` past its first character.
pub open spec fn spec_extension(p: Seq<char>) -> Option<Seq<char>> {
    let b = spec_basename(p);
    if last_index_of(b, '.') >= 1 {
        Some(b.subrange(last_index_of(b, '.') + 1, b.len() as int))
    } else {
        None
    }
}

/// A file takes part in the pipeline when its extension is `mp4` or `mkv`
/// (case-sensitive).
pub open spec fn spec_is_video(p: Seq<char>) -> bool {
    spec_extension(p) == Some("mp4"@) || spec_extension(p) == Some("mkv"@)
}

pub proof fn lemma_digit_run_end_props(s: Seq<char>, a: int)
    requires
        0 <= a <= s.len(),
    ensures
        a <= digit_run_end(s, a) <= s.len(),
        forall|k: int| a <= k < digit_run_end(s, a) ==> is_digit_char(#[trigger] s[k]),
        digit_run_end(s, a) < s.len() ==> !is_digit_char(s[digit_run_end(s, a)]),
    decreases s.len() - a,
{
    if a < s.len() && is_digit_char(s[a]) {
        lemma_digit_run_end_props(s, a + 1);
    }
}

pub proof fn lemma_digit_run_end_is(s: Seq<char>, a: int, j: int)
    requires
        0 <= a <= j <= s.len(),
        forall|k: int| a <= k < j ==> is_digit_char(#[trigger] s[k]),
        j == s.len() || !is_digit_char(s[j]),
    ensures
        digit_run_end(s, a) == j,
    decreases j - a,
{
    if a < j {
        lemma_digit_run_end_is(s, a + 1, j);
    }
}

proof fn lemma_marker_start_from(s: Seq<char>, k: int, i: int)
    requires
        0 <= k <= i,
        marker_at(s, i),
        forall|j: int| k <= j < i ==> !marker_at(s, j),
    ensures
        marker_start_from(s, k) == i,
    decreases i - k,
{
    if k < i {
        lemma_marker_start_from(s, k + 1, i);
    }
}

/// The first marker is at `i` when a marker is at `i` and none earlier.
pub proof fn lemma_marker_start(s: Seq<char>, i: int)
    requires
        0 <= i,
        marker_at(s, i),
        forall|j: int| 0 <= j < i ==> !marker_at(s, j),
    ensures
        has_marker(s),
        marker_start(s) == i,
{
    lemma_marker_start_from(s, 0, i);
}

proof fn lemma_last_index_is(p: Seq<char>, c: char, j: int)
    requires
        -1 <= j < p.len(),
        j >= 0 ==> p[j] == c,
        forall|k: int| j < k < p.len() ==> p[k] != c,
    ensures
        last_index_of(p, c) == j,
    decreases p.len(),
{
    if p.len() > 0 {
        if p.last() == c {
            assert(j == p.len() - 1);
        } else {
            assert(j < p.len() - 1);
            lemma_last_index_is(p.drop_last(), c, j);
        }
    }
}

/// Whether position `j` of `name` holds a decimal digit.
pub(crate) fn digit_at(name: &str, j: usize) -> (r: bool)
    requires
        j < name@.len(),
    ensures
        r == is_digit_char(name@[j as int]),
{
    let c = name.get_char(j);
    48 <= c as u32 && c as u32 <= 57
}

/// End of the maximal digit run starting at `from`.
fn digit_run_to(name: &str, from: usize) -> (r: usize)
    requires
        from <= name@.len(),
    ensures
        r == digit_run_end(name@, from as int),
        from <= r <= name@.len(),
{
    let n: usize = name.unicode_len();
    let mut j: usize = from;
    while j < n && digit_at(name, j)
        invariant
            n == name@.len(),
            from <= j <= n,
            forall|k: int| from <= k < j ==> is_digit_char(#[trigger] name@[k]),
        decreases n - j,
    {
        j = j + 1;
    }
    proof {
        lemma_digit_run_end_is(name@, from as int, j as int);
    }
    j
}

/// Find the first numbering marker: `Some((start, season digits end,
/// episode digits end))`, or `None` when the name holds no marker.
pub fn find_marker(name: &str) -> (r: Option<(usize, usize, usize)>)
    ensures
        match r {
            Some(t) => {
                &&& has_marker(name@)
                &&& t.0 == marker_start(name@)
                &&& t.1 == season_digits_end(name@)
                &&& t.2 == episode_digits_end(name@)
            },
            None => !has_marker(name@),
        },
{
    let n: usize = name.unicode_len();
    let mut i: usize = 0;
    while i < n
        invariant
            n == name@.len(),
            i <= n,
            forall|j: int| 0 <= j < i ==> !marker_at(name@, j),
        decreases n - i,
    {
        let c = name.get_char(i);
        if (c == 'S' || c == 's') && i + 1 < n && digit_at(name, i + 1) {
            let p = digit_run_to(name, i + 1);
            if p < n {
                let e = name.get_char(p);
                if (e == 'E' || e == 'e') && p + 1 < n && digit_at(name, p + 1) {
                    let q = digit_run_to(name, p + 1);
                    proof {
                        assert(marker_at(name@, i as int));
                        lemma_marker_start(name@, i as int);
                    }
                    return Some((i, p, q));
                }
            }
        }
        proof {
            assert(!marker_at(name@, i as int));
        }
        i = i + 1;
    }
    proof {
        assert(forall|j: int| !marker_at(name@, j));
    }
    None
}

/// Parse a run of digit characters as an `i32`; `None` when the value is
/// too large for `i32`.
fn parse_i32_run(name: &str, from: usize, to: usize) -> (r: Option<i32>)
    requires
        from <= to <= name@.len(),
        forall|k: int| from <= k < to ==> is_digit_char(#[trigger] name@[k]),
    ensures
        match r {
            Some(v) => v >= 0 && v as int == digits_val(
                name@.subrange(from as int, to as int),
            ),
            None => digits_val(name@.subrange(from as int, to as int)) > i32::MAX,
        },
{
    let mut acc: i64 = 0;
    let mut k: usize = from;
    while k < to
        invariant
            from <= k <= to <= name@.len(),
            forall|j: int| from <= j < to ==> is_digit_char(#[trigger] name@[j]),
            0 <= acc <= 21474836479,
            acc <= i32::MAX ==> acc == digits_val(name@.subrange(from as int, k as int)),
            acc > i32::MAX ==> digits_val(name@.subrange(from as int, k as int)) > i32::MAX,
        decreases to - k,
    {
        let c = name.get_char(k);
        let d: i64 = (c as u32 - 48) as i64;
        proof {
            assert(is_digit_char(name@[k as int]));
            assert(name@.subrange(from as int, k + 1 as int).drop_last() =~= name@.subrange(
                from as int,
                k as int,
            ));
        }
        if acc <= 2147483647 {
            acc = acc * 10 + d;
        }
        k = k + 1;
    }
    proof {
        assert(name@.subrange(from as int, to as int) == name@.subrange(
            from as int,
            k as int,
        ));
    }
    if acc <= 2147483647 {
        Some(acc as i32)
    } else {
        None
    }
}

/// The file name of a path: the text after the last `/`.
pub fn basename_str<'a>(path: &'a str) -> (r: &'a str)
    ensures
        r@ == spec_basename(path@),
{
    let n: usize = path.unicode_len();
    let mut j: usize = n;
    while j > 0 && non_slash_at(path, j - 1)
        invariant
            n == path@.len(),
            j <= n,
            forall|k: int| j <= k < n ==> path@[k] != '/',
        decreases j,
    {
        j = j - 1;
    }
    proof {
        if j > 0 {
            lemma_last_index_is(path@, '/', j - 1);
        } else {
            lemma_last_index_is(path@, '/', -1);
        }
    }
    path.substring_char(j, n)
}

fn non_slash_at(path: &str, k: usize) -> (r: bool)
    requires
        k < path@.len(),
    ensures
        r == (path@[k as int] != '/'),
{
    path.get_char(k) != '/'
}

fn non_dot_at(name: &str, k: usize) -> (r: bool)
    requires
        k < name@.len(),
    ensures
        r == (name@[k as int] != '.'),
{
    name.get_char(k) != '.'
}

/// The extension of a path, following the usual file-name rules: the text
/// after the last `.` of the file name, absent when the name has no `.`
/// past its first character.
pub fn extension_of<'a>(path: &'a str) -> (r: Option<&'a str>)
    ensures
        match r {
            Some(e) => spec_extension(path@) == Some(e@),
            None => spec_extension(path@) is None,
        },
{
    let name = basename_str(path);
    let n: usize = name.unicode_len();
    let mut j: usize = n;
    while j > 0 && non_dot_at(name, j - 1)
        invariant
            n == name@.len(),
            j <= n,
            forall|k: int| j <= k < n ==> name@[k] != '.',
        decreases j,
    {
        j = j - 1;
    }
    proof {
        if j > 0 {
            lemma_last_index_is(name@, '.', j - 1);
        } else {
            lemma_last_index_is(name@, '.', -1);
        }
    }
    if j >= 2 {
        Some(name.substring_char(j, n))
    } else {
        None
    }
}

/// The failure of turning a numbering marker's digits into numbers: a
/// digit group that no `i32` can hold.  The marker pattern itself only
/// captures digits, so this is the lone malformed-input case, and it is
/// surfaced loudly instead of being defaulted away.
#[derive(Clone, Copy, Debug, PartialEq, Eq, Structural)]
pub enum NumberingError {
    SeasonTooLarge,
    EpisodeTooLarge,
}

/// An episode video file, classified from its file name.
#[derive(Debug)]
pub struct Episode {
    pub season: i32,
    pub number: i32,
    pub path: String,
}

/// The mathematical content of an [`Episode`].
pub ghost struct EpisodeModel {
    pub season: int,
    pub number: int,
    pub path: Seq<char>,
}

impl View for Episode {
    type V = EpisodeModel;

    open spec fn view(&self) -> EpisodeModel {
        EpisodeModel { season: self.season as int, number: self.number as int, path: self.path@ }
    }
}

/// The error that classifying `path` runs into, if any: a marker whose
/// season or episode digit group exceeds `i32`.  Season digits are read
/// first, so a season overflow wins when both groups are too large.
pub open spec fn spec_video_error(path: Seq<char>) -> Option<NumberingError> {
    let name = spec_basename(path);
    if !has_marker(name) {
        None
    } else if spec_season_val(name) > i32::MAX {
        Some(NumberingError::SeasonTooLarge)
    } else if spec_episode_val(name) > i32::MAX {
        Some(NumberingError::EpisodeTooLarge)
    } else {
        None
    }
}

/// The episode that classifying `path` yields, when its file name holds a
/// marker and the digit groups fit.
pub open spec fn spec_episode_of(path: Seq<char>) -> EpisodeModel {
    let name = spec_basename(path);
    EpisodeModel {
        season: spec_season_val(name),
        number: spec_episode_val(name),
        path: path,
    }
}

impl Episode {
    /// Classify a path.  For every path whose file name holds a numbering
    /// marker, the season and episode number are exactly the marker's two
    /// digit groups; a name without a marker is unclassifiable
    /// (`Ok(None)`), and a digit group too large for `i32` is an error.
    pub fn from_path(path: &str) -> (r: Result<Option<Episode>, NumberingError>)
        ensures
            match r {
                Ok(Some(e)) => {
                    &&& has_marker(spec_basename(path@))
                    &&& spec_video_error(path@) is None
                    &&& e@ == spec_episode_of(path@)
                },
                Ok(None) => !has_marker(spec_basename(path@)),
                Err(err) => spec_video_error(path@) == Some(err),
            },
    {
        let name = basename_str(path);
        match find_marker(name) {
            None => Ok(None),
            Some((i, p, q)) => {
                proof {
                    let s = name@;
                    assert(marker_at(s, marker_start(s))) by {
                        lemma_marker_start_at(s);
                    }
                    lemma_digit_run_end_props(s, i + 1 as int);
                    lemma_digit_run_end_props(s, p + 1 as int);
                }
                let season = match parse_i32_run(name, i + 1, p) {
                    Some(v) => v,
                    None => {
                        return Err(NumberingError::SeasonTooLarge);
                    },
                };
                let number = match parse_i32_run(name, p + 1, q) {
                    Some(v) => v,
                    None => {
                        return Err(NumberingError::EpisodeTooLarge);
                    },
                };
                Ok(Some(Episode { season, number, path: path.to_owned() }))
            },
        }
    }
}

/// When a name holds a marker, one starts at `marker_start`.
pub proof fn lemma_marker_start_at(s: Seq<char>)
    requires
        has_marker(s),
    ensures
        marker_at(s, marker_start(s)),
        0 <= marker_start(s) < s.len(),
{
    let w = choose|i: int| marker_at(s, i);
    lemma_marker_start_found(s, 0, w);
}

proof fn lemma_marker_start_found(s: Seq<char>, k: int, w: int)
    requires
        0 <= k,
        k <= w,
        marker_at(s, w),
    ensures
        marker_at(s, marker_start_from(s, k)),
        k <= marker_start_from(s, k) < s.len(),
    decreases s.len() - k,
{
    if !marker_at(s, k) {
        lemma_marker_start_found(s, k + 1, w);
    }
}

/// One series bucket: the raw key and the episodes grouped under it.
#[derive(Debug)]
pub struct SeriesGroup {
    pub key: String,
    pub episodes: Vec<Episode>,
}

/// The views of a list of episodes.
pub open spec fn spec_episode_views(es: Seq<Episode>) -> Seq<EpisodeModel> {
    es.map_values(|e: Episode| e@)
}

/// The views of a list of path strings.
pub open spec fn spec_views(videos: Seq<String>) -> Seq<Seq<char>> {
    videos.map_values(|v: String| v@)
}

/// The raw series key of a path: the text of its file name before the
/// first numbering marker.
pub open spec fn spec_key_of(path: Seq<char>) -> Seq<char> {
    spec_series_key(spec_basename(path))
}

/// The episodes that grouping `videos` puts under `key`, in input order:
/// every path whose file name holds a marker and whose series key is
/// `key`.
pub open spec fn spec_group(videos: Seq<Seq<char>>, key: Seq<char>) -> Seq<EpisodeModel>
    decreases videos.len(),
{
    if videos.len() == 0 {
        Seq::empty()
    } else {
        let init = spec_group(videos.drop_last(), key);
        let p = videos.last();
        if has_marker(spec_basename(p)) && spec_key_of(p) == key {
            init.push(spec_episode_of(p))
        } else {
            init
        }
    }
}

/// The first classification error over a list of paths, in input order.
pub open spec fn spec_first_overflow(videos: Seq<Seq<char>>) -> Option<NumberingError>
    decreases videos.len(),
{
    if videos.len() == 0 {
        None
    } else if spec_video_error(videos[0]) is Some {
        spec_video_error(videos[0])
    } else {
        spec_first_overflow(videos.subrange(1, videos.len() as int))
    }
}

proof fn lemma_first_overflow_skip(videos: Seq<Seq<char>>, i: int)
    requires
        0 <= i <= videos.len(),
        forall|j: int| 0 <= j < i ==> spec_video_error(#[trigger] videos[j]) is None,
    ensures
        spec_first_overflow(videos) == spec_first_overflow(
            videos.subrange(i, videos.len() as int),
        ),
    decreases i,
{
    if i == 0 {
        assert(videos.subrange(0, videos.len() as int) =~= videos);
    } else {
        let d = videos.subrange(1, videos.len() as int);
        assert(spec_video_error(videos[0]) is None);
        assert(spec_first_overflow(videos) == spec_first_overflow(d));
        assert(forall|j: int| 0 <= j < i - 1 ==> spec_video_error(#[trigger] d[j]) is None);
        lemma_first_overflow_skip(d, i - 1);
        assert(d.subrange(i - 1, d.len() as int) =~= videos.subrange(i, videos.len() as int));
    }
}

/// A nonempty bucket has a grouped video behind it: some input whose file
/// name holds a marker and whose key is the bucket's.
pub proof fn lemma_group_nonempty_witness(videos: Seq<Seq<char>>, k: Seq<char>)
    requires
        spec_group(videos, k).len() > 0,
    ensures
        exists|i: int|
            0 <= i < videos.len() && has_marker(spec_basename(#[trigger] videos[i]))
                && spec_key_of(videos[i]) == k,
    decreases videos.len(),
{
    let last = videos.last();
    if has_marker(spec_basename(last)) && spec_key_of(last) == k {
        assert(0 <= videos.len() - 1 < videos.len() && has_marker(
            spec_basename(videos[videos.len() - 1]),
        ) && spec_key_of(videos[videos.len() - 1]) == k);
    } else {
        lemma_group_nonempty_witness(videos.drop_last(), k);
        let w = choose|i: int|
            0 <= i < videos.drop_last().len() && has_marker(
                spec_basename(#[trigger] videos.drop_last()[i]),
            ) && spec_key_of(videos.drop_last()[i]) == k;
        assert(videos.drop_last()[w] == videos[w]);
        assert(0 <= w < videos.len() && has_marker(spec_basename(videos[w])) && spec_key_of(
            videos[w],
        ) == k);
    }
}

/// A file whose name holds no numbering marker never appears in any
/// series bucket.
pub proof fn lemma_unmarked_never_grouped(videos: Seq<Seq<char>>, k: Seq<char>, path: Seq<char>)
    requires
        !has_marker(spec_basename(path)),
    ensures
        forall|j: int|
            0 <= j < spec_group(videos, k).len() ==> (#[trigger] spec_group(videos, k)[j]).path
                != path,
    decreases videos.len(),
{
    if videos.len() > 0 {
        lemma_unmarked_never_grouped(videos.drop_last(), k, path);
        let init = spec_group(videos.drop_last(), k);
        let last = videos.last();
        if has_marker(spec_basename(last)) && spec_key_of(last) == k {
            assert(spec_group(videos, k) == init.push(spec_episode_of(last)));
            assert(last != path);
            assert forall|j: int|
                0 <= j < spec_group(videos, k).len() implies (#[trigger] spec_group(videos, k)[j]).path
                != path by {
                if j < init.len() {
                    assert(spec_group(videos, k)[j] == init[j]);
                } else {
                    assert(spec_group(videos, k)[j] == spec_episode_of(last));
                    assert(spec_episode_of(last).path == last);
                }
            }
        } else {
            assert(spec_group(videos, k) == init);
        }
    }
}

/// There is a bucket whose key is `k`.
pub open spec fn spec_has_bucket(groups: Seq<SeriesGroup>, k: Seq<char>) -> bool {
    exists|g: int| 0 <= g < groups.len() && (#[trigger] groups[g].key@) == k
}

/// Group the discovered files into series buckets.  Each file whose name
/// holds a numbering marker lands, in input order, in the bucket of its
/// raw series key; files without a marker land nowhere.  Bucket keys are
/// pairwise distinct, every bucket is nonempty, and every marked file's
/// key has a bucket.  The first digit group too large for `i32` aborts
/// the grouping with its error.
#[verifier::rlimit(50)]
pub fn pre_sort(videos: &Vec<String>) -> (r: Result<Vec<SeriesGroup>, NumberingError>)
    ensures
        match r {
            Err(err) => spec_first_overflow(spec_views(videos@)) == Some(err),
            Ok(groups) => {
                &&& spec_first_overflow(spec_views(videos@)) is None
                &&& forall|a: int, b: int|
                    0 <= a < b < groups@.len() ==> (#[trigger] groups@[a].key@) != (
                    #[trigger] groups@[b].key@)
                &&& forall|g: int|
                    0 <= g < groups@.len() ==> spec_episode_views((#[trigger] groups@[g]).episodes@)
                        == spec_group(spec_views(videos@), groups@[g].key@)
                &&& forall|g: int| 0 <= g < groups@.len() ==> (#[trigger] groups@[g]).episodes@.len() > 0
                &&& forall|i: int|
                    0 <= i < videos@.len() && has_marker(
                        spec_basename(#[trigger] spec_views(videos@)[i]),
                    ) ==> spec_has_bucket(groups@, spec_key_of(spec_views(videos@)[i]))
            },
        },
{
    let ghost vs = spec_views(videos@);
    let n: usize = videos.len();
    let mut groups: Vec<SeriesGroup> = Vec::new();
    let mut idx: usize = 0;
    while idx < n
        invariant
            n == videos@.len(),
            idx <= n,
            vs == spec_views(videos@),
            vs.len() == n,
            forall|j: int| 0 <= j < idx ==> spec_video_error(#[trigger] vs[j]) is None,
            forall|a: int, b: int|
                0 <= a < b < groups@.len() ==> (#[trigger] groups@[a].key@) != (
                #[trigger] groups@[b].key@),
            forall|g: int|
                0 <= g < groups@.len() ==> spec_episode_views((#[trigger] groups@[g]).episodes@)
                    == spec_group(vs.take(idx as int), groups@[g].key@),
            forall|g: int| 0 <= g < groups@.len() ==> (#[trigger] groups@[g]).episodes@.len() > 0,
            forall|i: int|
                0 <= i < idx && has_marker(spec_basename(#[trigger] vs[i])) ==> spec_has_bucket(
                    groups@,
                    spec_key_of(vs[i]),
                ),
        decreases n - idx,
    {
        let video: &String = &videos[idx];
        proof {
            assert(vs[idx as int] == video@);
        }
        match Episode::from_path(video.as_str()) {
            Err(err) => {
                proof {
                    lemma_first_overflow_skip(vs, idx as int);
                    let sub = vs.subrange(idx as int, vs.len() as int);
                    assert(sub.len() > 0);
                    assert(sub[0] == vs[idx as int]);
                    assert(spec_video_error(sub[0]) == Some(err));
                    assert(spec_first_overflow(sub) == Some(err));
                }
                return Err(err);
            },
            Ok(None) => {
                proof {
                    assert forall|g: int| 0 <= g < groups@.len() implies spec_episode_views(
                        (#[trigger] groups@[g]).episodes@,
                    ) == spec_group(vs.take(idx + 1 as int), groups@[g].key@) by {
                        assert(vs.take(idx + 1 as int).drop_last() =~= vs.take(idx as int));
                        assert(vs.take(idx + 1 as int).last() == vs[idx as int]);
                    }
                }
            },
            Ok(Some(ep)) => {
                let name = basename_str(video.as_str());
                let mi: usize = match find_marker(name) {
                    Some((mi, _p, _q)) => mi,
                    None => {
                        // The classifier saw a marker, so the scan cannot miss.
                        proof {
                            assert(false);
                        }
                        0
                    },
                };
                proof {
                    lemma_marker_start_at(name@);
                }
                let key = name.substring_char(0, mi).to_owned();
                proof {
                    assert(key@ =~= spec_key_of(vs[idx as int]));
                }
                let mut gi: usize = 0;
                while gi < groups.len() && !str_eq(groups[gi].key.as_str(), key.as_str())
                    invariant
                        gi <= groups@.len(),
                        forall|g: int| 0 <= g < gi ==> (#[trigger] groups@[g].key@) != key@,
                    decreases groups@.len() - gi,
                {
                    gi = gi + 1;
                }
                let ghost old_groups = groups@;
                if gi < groups.len() {
                    // An existing bucket for this key.
                    let mut tmp = SeriesGroup { key: String::new(), episodes: Vec::new() };
                    groups.set_and_swap(gi, &mut tmp);
                    tmp.episodes.push(ep);
                    groups.set_and_swap(gi, &mut tmp);
                    proof {
                        assert(groups@ =~= old_groups.update(gi as int, groups@[gi as int]));
                        assert(groups@[gi as int].key@ == key@);
                        assert(groups@[gi as int].episodes@ == old_groups[gi as int].episodes@.push(
                            ep,
                        ));
                        assert forall|g: int| 0 <= g < groups@.len() implies spec_episode_views(
                            (#[trigger] groups@[g]).episodes@,
                        ) == spec_group(vs.take(idx + 1 as int), groups@[g].key@) by {
                            assert(vs.take(idx + 1 as int).drop_last() =~= vs.take(idx as int));
                            assert(vs.take(idx + 1 as int).last() == vs[idx as int]);
                            if g == gi {
                                assert(spec_episode_views(groups@[g].episodes@)
                                    =~= spec_episode_views(old_groups[g].episodes@).push(ep@));
                            } else {
                                assert(groups@[g] == old_groups[g]);
                                assert(groups@[g].key@ != key@);
                            }
                        }
                        assert forall|i: int|
                            0 <= i < idx + 1 && has_marker(
                                spec_basename(#[trigger] vs[i]),
                            ) implies spec_has_bucket(groups@, spec_key_of(vs[i])) by {
                            if i < idx {
                                let w = choose|g: int|
                                    0 <= g < old_groups.len() && (#[trigger] old_groups[g].key@)
                                        == spec_key_of(vs[i]);
                                assert(0 <= w < groups@.len() && groups@[w].key@ == spec_key_of(
                                    vs[i],
                                ));
                            } else {
                                assert(0 <= gi < groups@.len() && groups@[gi as int].key@
                                    == spec_key_of(vs[i]));
                            }
                        }
                    }
                } else {
                    // A fresh bucket: this key has no earlier grouped video.
                    let mut es: Vec<Episode> = Vec::new();
                    es.push(ep);
                    groups.push(SeriesGroup { key, episodes: es });
                    proof {
                        let k = groups@[groups@.len() - 1].key@;
                        assert(k == key@);
                        if spec_group(vs.take(idx as int), k).len() > 0 {
                            lemma_group_nonempty_witness(vs.take(idx as int), k);
                            let w = choose|i: int|
                                0 <= i < vs.take(idx as int).len() && has_marker(
                                    spec_basename(#[trigger] vs.take(idx as int)[i]),
                                ) && spec_key_of(vs.take(idx as int)[i]) == k;
                            assert(vs.take(idx as int)[w] == vs[w]);
                            assert(spec_has_bucket(old_groups, spec_key_of(vs[w])));
                            let wg = choose|g: int|
                                0 <= g < old_groups.len() && (#[trigger] old_groups[g].key@)
                                    == spec_key_of(vs[w]);
                            assert(false);
                        }
                        assert forall|g: int| 0 <= g < groups@.len() implies spec_episode_views(
                            (#[trigger] groups@[g]).episodes@,
                        ) == spec_group(vs.take(idx + 1 as int), groups@[g].key@) by {
                            assert(vs.take(idx + 1 as int).drop_last() =~= vs.take(idx as int));
                            assert(vs.take(idx + 1 as int).last() == vs[idx as int]);
                            if g == groups@.len() - 1 {
                                assert(spec_episode_views(groups@[g].episodes@) =~= Seq::<
                                    EpisodeModel,
                                >::empty().push(ep@));
                                assert(spec_group(vs.take(idx as int), groups@[g].key@)
                                    =~= Seq::<EpisodeModel>::empty());
                            } else {
                                assert(groups@[g] == old_groups[g]);
                            }
                        }
                        assert forall|i: int|
                            0 <= i < idx + 1 && has_marker(
                                spec_basename(#[trigger] vs[i]),
                            ) implies spec_has_bucket(groups@, spec_key_of(vs[i])) by {
                            if i < idx {
                                let w = choose|g: int|
                                    0 <= g < old_groups.len() && (#[trigger] old_groups[g].key@)
                                        == spec_key_of(vs[i]);
                                assert(groups@[w] == old_groups[w]);
                                assert(0 <= w < groups@.len() && groups@[w].key@ == spec_key_of(
                                    vs[i],
                                ));
                            } else {
                                let g = groups@.len() - 1;
                                assert(0 <= g < groups@.len() && groups@[g].key@ == spec_key_of(
                                    vs[i],
                                ));
                            }
                        }
                    }
                }
            },
        }
        idx = idx + 1;
    }
    proof {
        assert(vs.take(n as int) =~= vs);
        lemma_first_overflow_skip(vs, n as int);
        assert(vs.subrange(n as int, vs.len() as int).len() == 0);
        assert(spec_first_overflow(vs.subrange(n as int, vs.len() as int)) is None);
        assert(spec_first_overflow(vs) is None);
        assert forall|g: int| 0 <= g < groups@.len() implies spec_episode_views(
            (#[trigger] groups@[g]).episodes@,
        ) == spec_group(spec_views(videos@), groups@[g].key@) by {
            assert(spec_episode_views(groups@[g].episodes@) == spec_group(
                vs.take(n as int),
                groups@[g].key@,
            ));
        }
        assert forall|i: int|
            0 <= i < videos@.len() && has_marker(
                spec_basename(#[trigger] spec_views(videos@)[i]),
            ) implies spec_has_bucket(groups@, spec_key_of(spec_views(videos@)[i])) by {
            assert(spec_views(videos@)[i] == vs[i]);
            assert(0 <= i < idx && has_marker(spec_basename(vs[i])));
        }
    }
    Ok(groups)
}

/// Whether the file at `path` takes part in the pipeline: its extension is
/// `mp4` or `mkv`, case-sensitive.
pub fn is_video(path: &str) -> (r: bool)
    ensures
        r == spec_is_video(path@),
{
    match extension_of(path) {
        Some(ext) => str_eq(ext, "mp4") || str_eq(ext, "mkv"),
        None => false,
    }
}

} // verus!
