//! Identity resolution: turning a raw series key into a search query,
//! interpreting the operator's one-line answer against the candidate list,
//! and rendering candidates for display.
//!
//! The remote search calls and the console read are thin collaborators
//! outside the library; everything decided about their values is here.

use vstd::prelude::*;
use crate::str_eq;
use crate::cms::digits_val;
use crate::cms::is_digit_char;
use crate::naming::dec_string;
use crate::naming::spec_dec_digits;
use crate::tmdb;
use crate::tmdb::search::Movies;
use crate::tmdb::search::Shows;

verus! {

/// Whether a character counts as alphanumeric for query building.  Only
/// the trusted wrapper below gives this meaning; in the ASCII range it is
/// exactly the digits and letters.
pub uninterp spec fn is_alnum(c: char) -> bool;

/// Relies on char::is_alphanumeric: true exactly for characters in one of
/// the Unicode general categories Nd, Nl, No, Lu, Ll, Lt, Lm, Lo, which in
/// the ASCII range are the digits `0-9` and the letters `A-Z` and `a-z`.
#[verifier::external_body]
fn char_is_alphanumeric(c: char) -> (r: bool)
    ensures
        r == is_alnum(c),
        (c as u32) < 128 ==> r == ((48 <= c as u32 && c as u32 <= 57) || (65 <= c as u32 && c
            as u32 <= 90) || (97 <= c as u32 && c as u32 <= 122)),
{
    c.is_alphanumeric()
}

/// Every character that is not alphanumeric, replaced by a space.
pub open spec fn spec_blanked(s: Seq<char>) -> Seq<char> {
    s.map_values(
        |c: char|
            if is_alnum(c) {
                c
            } else {
                ' '
            },
    )
}

/// The first alphanumeric position (`s.len()` when there is none).
pub open spec fn first_alnum(s: Seq<char>) -> int
    decreases s.len(),
{
    if s.len() == 0 {
        0
    } else if is_alnum(s[0]) {
        0
    } else {
        1 + first_alnum(s.drop_first())
    }
}

/// The last alphanumeric position (`-1` when there is none).
pub open spec fn last_alnum(s: Seq<char>) -> int
    decreases s.len(),
{
    if s.len() == 0 {
        -1
    } else if is_alnum(s.last()) {
        s.len() - 1
    } else {
        last_alnum(s.drop_last())
    }
}

/// The search query built from a raw series key: every character that is
/// not alphanumeric becomes a space, then leading and trailing whitespace
/// is trimmed away.
pub open spec fn spec_query(s: Seq<char>) -> Seq<char> {
    if first_alnum(s) == s.len() {
        Seq::empty()
    } else {
        spec_blanked(s).subrange(first_alnum(s), last_alnum(s) + 1)
    }
}

proof fn lemma_first_alnum_is(s: Seq<char>, a: int)
    requires
        0 <= a <= s.len(),
        forall|k: int| 0 <= k < a ==> !is_alnum(#[trigger] s[k]),
        a < s.len() ==> is_alnum(s[a]),
    ensures
        first_alnum(s) == a,
    decreases s.len(),
{
    if s.len() > 0 && !is_alnum(s[0]) {
        let d = s.drop_first();
        assert(a >= 1);
        assert(forall|k: int| 0 <= k < a - 1 ==> !is_alnum(#[trigger] d[k]));
        lemma_first_alnum_is(d, a - 1);
    }
}

proof fn lemma_last_alnum_is(s: Seq<char>, b: int)
    requires
        -1 <= b < s.len(),
        b >= 0 ==> is_alnum(s[b]),
        forall|k: int| b < k < s.len() ==> !is_alnum(#[trigger] s[k]),
    ensures
        last_alnum(s) == b,
    decreases s.len(),
{
    if s.len() > 0 {
        if is_alnum(s.last()) {
            assert(b == s.len() - 1);
        } else {
            assert(b < s.len() - 1);
            lemma_last_alnum_is(s.drop_last(), b);
        }
    }
}

fn alnum_at(name: &str, j: usize) -> (r: bool)
    requires
        j < name@.len(),
    ensures
        r == is_alnum(name@[j as int]),
{
    char_is_alphanumeric(name.get_char(j))
}

/// Build the search query for a raw series key: replace every character
/// that is not alphanumeric with a space, then trim both ends.
pub fn make_query(name: &str) -> (r: String)
    ensures
        r@ == spec_query(name@),
{
    let n: usize = name.unicode_len();
    let mut a: usize = 0;
    while a < n && !alnum_at(name, a)
        invariant
            n == name@.len(),
            a <= n,
            forall|k: int| 0 <= k < a ==> !is_alnum(#[trigger] name@[k]),
        decreases n - a,
    {
        a = a + 1;
    }
    proof {
        lemma_first_alnum_is(name@, a as int);
    }
    if a == n {
        return String::new();
    }
    let mut b: usize = n;
    while b > a && !alnum_at(name, b - 1)
        invariant
            a < n == name@.len(),
            a <= b <= n,
            is_alnum(name@[a as int]),
            forall|k: int| b <= k < n ==> !is_alnum(#[trigger] name@[k]),
        decreases b,
    {
        b = b - 1;
    }
    proof {
        assert(b > a);
        assert(is_alnum(name@[b - 1]));
        lemma_last_alnum_is(name@, b - 1);
    }
    let mut out = String::new();
    let mut i: usize = a;
    while i < b
        invariant
            n == name@.len(),
            a <= i <= b <= n,
            out@ =~= spec_blanked(name@).subrange(a as int, i as int),
        decreases b - i,
    {
        if alnum_at(name, i) {
            let piece = name.substring_char(i, i + 1);
            out.append(piece);
        } else {
            out.append(" ");
            proof {
                reveal_strlit(" ");
            }
        }
        proof {
            assert(out@ =~= spec_blanked(name@).subrange(a as int, i + 1 as int));
        }
        i = i + 1;
    }
    proof {
        assert(out@ =~= spec_query(name@));
    }
    out
}

/// A four-digit year starting at `i`: `19` or `20`, then two digits.
pub open spec fn year_at(s: Seq<char>, i: int) -> bool {
    &&& 0 <= i
    &&& i + 4 <= s.len()
    &&& ((s[i] == '1' && s[i + 1] == '9') || (s[i] == '2' && s[i + 1] == '0'))
    &&& is_digit_char(s[i + 2])
    &&& is_digit_char(s[i + 3])
}

/// The name holds a four-digit year somewhere.
pub open spec fn has_year(s: Seq<char>) -> bool {
    exists|i: int| year_at(s, i)
}

/// The first position at or after `k` where a year starts.
pub open spec fn year_start_from(s: Seq<char>, k: int) -> int
    decreases s.len() - k,
{
    if k < 0 || k >= s.len() {
        s.len() as int
    } else if year_at(s, k) {
        k
    } else {
        year_start_from(s, k + 1)
    }
}

/// Start of the first four-digit year.
pub open spec fn year_start(s: Seq<char>) -> int {
    year_start_from(s, 0)
}

/// The text before the first four-digit year (all of it when none).
pub open spec fn spec_before_year(s: Seq<char>) -> Seq<char> {
    if has_year(s) {
        s.take(year_start(s))
    } else {
        s
    }
}

proof fn lemma_year_start_from(s: Seq<char>, k: int, i: int)
    requires
        0 <= k <= i,
        year_at(s, i),
        forall|j: int| k <= j < i ==> !year_at(s, j),
    ensures
        year_start_from(s, k) == i,
    decreases i - k,
{
    if k < i {
        lemma_year_start_from(s, k + 1, i);
    }
}

/// Find the first four-digit year, as the movie query split does.
fn find_year(name: &str) -> (r: Option<usize>)
    ensures
        match r {
            Some(i) => has_year(name@) && i == year_start(name@) && i + 4 <= name@.len(),
            None => !has_year(name@),
        },
{
    let n: usize = name.unicode_len();
    let mut i: usize = 0;
    while i < n
        invariant
            n == name@.len(),
            i <= n,
            forall|j: int| 0 <= j < i ==> !year_at(name@, j),
        decreases n - i,
    {
        if n - i >= 4 {
            let c0 = name.get_char(i);
            let c1 = name.get_char(i + 1);
            if ((c0 == '1' && c1 == '9') || (c0 == '2' && c1 == '0')) && crate::cms::digit_at(
                name,
                i + 2,
            ) && crate::cms::digit_at(name, i + 3) {
                proof {
                    assert(year_at(name@, i as int));
                    lemma_year_start_from(name@, 0, i as int);
                }
                return Some(i);
            }
        }
        proof {
            assert(!year_at(name@, i as int));
        }
        i = i + 1;
    }
    proof {
        assert(forall|j: int| !year_at(name@, j));
    }
    None
}

/// Build the search query for a film file name: the text before the first
/// four-digit year, with every non-alphanumeric character turned into a
/// space and both ends trimmed.
pub fn movie_query(filename: &str) -> (r: String)
    ensures
        r@ == spec_query(spec_before_year(filename@)),
{
    match find_year(filename) {
        Some(i) => {
            let prefix = filename.substring_char(0, i);
            proof {
                assert(prefix@ =~= spec_before_year(filename@));
            }
            make_query(prefix)
        },
        None => make_query(filename),
    }
}

/// Why an operator's answer failed: not a number at all, or a selection
/// outside the candidate list.  Both are fatal for the run.
#[derive(Clone, Copy, Debug, PartialEq, Eq, Structural)]
pub enum ChoiceError {
    NotANumber,
    OutOfRange,
}

/// The digits of an answer, allowing one leading `+`.
pub open spec fn spec_choice_digits(s: Seq<char>) -> Seq<char> {
    if s.len() > 0 && s[0] == '+' {
        s.drop_first()
    } else {
        s
    }
}

/// The answer read as an unsigned number: at least one digit (after an
/// optional `+`), nothing else, and a value that fits the machine.
pub open spec fn spec_parse_usize(s: Seq<char>) -> Option<int> {
    let ds = spec_choice_digits(s);
    if ds.len() >= 1 && (forall|k: int| 0 <= k < ds.len() ==> is_digit_char(#[trigger] ds[k]))
        && digits_val(ds) <= usize::MAX {
        Some(digits_val(ds))
    } else {
        None
    }
}

/// Parse an operator's answer as a number.
pub fn parse_usize(input: &str) -> (r: Option<usize>)
    ensures
        match r {
            Some(v) => spec_parse_usize(input@) == Some(v as int),
            None => spec_parse_usize(input@) is None,
        },
{
    let n: usize = input.unicode_len();
    let st: usize = if n > 0 && input.get_char(0) == '+' {
        1
    } else {
        0
    };
    proof {
        assert(spec_choice_digits(input@) =~= input@.subrange(st as int, n as int));
    }
    if n == st {
        return None;
    }
    let mut acc: u128 = 0;
    let mut k: usize = st;
    while k < n
        invariant
            st <= k <= n,
            n == input@.len(),
            spec_choice_digits(input@) == input@.subrange(st as int, n as int),
            forall|j: int| st <= j < k ==> is_digit_char(#[trigger] input@[j]),
            0 <= acc <= usize::MAX as u128 * 10 + 9,
            acc <= usize::MAX as u128 ==> acc as int == digits_val(
                input@.subrange(st as int, k as int),
            ),
            acc > usize::MAX as u128 ==> digits_val(input@.subrange(st as int, k as int))
                > usize::MAX,
        decreases n - k,
    {
        let c = input.get_char(k);
        if !(48 <= c as u32 && c as u32 <= 57) {
            proof {
                assert(spec_choice_digits(input@)[k - st] == input@[k as int]);
                assert(!is_digit_char(spec_choice_digits(input@)[k - st]));
            }
            return None;
        }
        let d: u128 = (c as u32 - 48) as u128;
        proof {
            assert(is_digit_char(input@[k as int]));
            assert(input@.subrange(st as int, k + 1 as int).drop_last() =~= input@.subrange(
                st as int,
                k as int,
            ));
        }
        if acc <= usize::MAX as u128 {
            acc = acc * 10 + d;
        }
        k = k + 1;
    }
    proof {
        assert(input@.subrange(st as int, n as int) == input@.subrange(st as int, k as int));
        assert(spec_choice_digits(input@).len() >= 1);
    }
    if acc <= usize::MAX as u128 {
        Some(acc as usize)
    } else {
        None
    }
}

/// What one operator answer means against a list of `count` candidates:
/// the literal `skip` declines the whole group; a number `n` between 1
/// and `count` picks the `n`-th candidate (1-indexed); anything else is
/// an error.
pub open spec fn spec_selection(input: Seq<char>, count: int) -> Result<Option<int>, ChoiceError> {
    if input == "skip"@ {
        Ok(None)
    } else {
        match spec_parse_usize(input) {
            None => Err(ChoiceError::NotANumber),
            Some(n) => if 1 <= n <= count {
                Ok(Some(n - 1))
            } else {
                Err(ChoiceError::OutOfRange)
            },
        }
    }
}

/// Interpret the operator's answer for a show group: `skip` declines the
/// group, a 1-indexed selection yields that candidate's id and original
/// name, and anything else is the exact error `spec_selection` gives.
pub fn select_show(shows: &Shows, input: &str) -> (r: Result<Option<(i32, String)>, ChoiceError>)
    ensures
        match spec_selection(input@, shows.results@.len() as int) {
            Ok(choice) => match choice {
                None => r matches Ok(None),
                Some(i) => r matches Ok(Some(p)) && p.0 == shows.results@[i].id && p.1
                    == shows.results@[i].original_name,
            },
            Err(e) => r == Err::<Option<(i32, String)>, ChoiceError>(e),
        },
{
    if str_eq(input, "skip") {
        return Ok(None);
    }
    let n = match parse_usize(input) {
        Some(v) => v,
        None => {
            return Err(ChoiceError::NotANumber);
        },
    };
    if 1 <= n && n <= shows.results.len() {
        let chosen = &shows.results[n - 1];
        Ok(Some((chosen.id, chosen.original_name.clone())))
    } else {
        Err(ChoiceError::OutOfRange)
    }
}

/// Interpret the operator's answer for a film: as [`select_show`], with
/// the candidate's id and title.
pub fn select_movie(movies: &Movies, input: &str) -> (r: Result<
    Option<(i32, String)>,
    ChoiceError,
>)
    ensures
        match spec_selection(input@, movies.results@.len() as int) {
            Ok(choice) => match choice {
                None => r matches Ok(None),
                Some(i) => r matches Ok(Some(p)) && p.0 == movies.results@[i].id && p.1
                    == movies.results@[i].title,
            },
            Err(e) => r == Err::<Option<(i32, String)>, ChoiceError>(e),
        },
{
    if str_eq(input, "skip") {
        return Ok(None);
    }
    let n = match parse_usize(input) {
        Some(v) => v,
        None => {
            return Err(ChoiceError::NotANumber);
        },
    };
    if 1 <= n && n <= movies.results.len() {
        let chosen = &movies.results[n - 1];
        Ok(Some((chosen.id, chosen.title.clone())))
    } else {
        Err(ChoiceError::OutOfRange)
    }
}

/// One show candidate's display line: `N. name (year) poster-url`.
pub fn candidate_line(num: u64, show: &crate::tmdb::search::Show) -> (r: String)
    ensures
        r@ == spec_dec_digits(num as int) + ". "@ + show.original_name@ + " ("@
            + show.first_air_date@ + ") "@ + "https://image.tmdb.org/t/p/"@ + "original"@
            + show.poster_path@,
{
    let mut s = dec_string(num);
    s.append(". ");
    s.append(show.original_name.as_str());
    s.append(" (");
    s.append(show.first_air_date.as_str());
    s.append(") ");
    let url = tmdb::poster(show.poster_path.as_str());
    s.append(url.as_str());
    s
}

/// One film candidate's display line: `N. title (date) poster-url
/// (original title)`; a missing poster renders as nothing.
pub fn movie_candidate_line(num: u64, movie: &crate::tmdb::search::Movie) -> (r: String)
    ensures
        r@ == spec_dec_digits(num as int) + ". "@ + movie.title@ + " ("@ + movie.release_date@
            + ") "@ + (match movie.poster_path {
            Some(p) => "https://image.tmdb.org/t/p/"@ + "original"@ + p@,
            None => Seq::<char>::empty(),
        }) + " ("@ + movie.original_title@ + ")"@,
{
    let mut s = dec_string(num);
    s.append(". ");
    s.append(movie.title.as_str());
    s.append(" (");
    s.append(movie.release_date.as_str());
    s.append(") ");
    match &movie.poster_path {
        Some(p) => {
            let url = tmdb::poster(p.as_str());
            s.append(url.as_str());
        },
        None => {},
    }
    s.append(" (");
    s.append(movie.original_title.as_str());
    s.append(")");
    s
}

} // verus!
