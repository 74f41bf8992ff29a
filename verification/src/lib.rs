//! Organize locally stored episode video files into a canonical
//! `Series/<Show>/Season NN/<Show> - sNNeNN - <Title>.<ext>` layout.
//!
//! The library holds the classification, grouping and naming pipeline:
//! extracting `S<digits>E<digits>` numbering markers from filenames,
//! bucketing episodes by the series key preceding the marker, interpreting
//! the operator's candidate selection, and building filesystem-safe
//! destination paths.  Directory walking, the remote metadata calls and the
//! actual file copies are thin collaborators that live outside the library.

use vstd::prelude::*;

pub mod cms;
pub mod naming;
pub mod resolve;
pub mod tmdb;

use crate::cms::Episode;

verus! {

/// Episode order used when a group is shown and relocated: by season,
/// then by episode number.
pub open spec fn key_le(a: Episode, b: Episode) -> bool {
    a.season < b.season || (a.season == b.season && a.number <= b.number)
}

/// Strictly earlier in the episode order.
pub open spec fn key_lt(a: Episode, b: Episode) -> bool {
    !key_le(b, a)
}

/// Sorted by `(season, number)`.
pub open spec fn episodes_sorted(s: Seq<Episode>) -> bool {
    forall|i: int, j: int| 0 <= i < j < s.len() ==> key_le(#[trigger] s[i], #[trigger] s[j])
}

/// Stable insertion into a sorted run: the new episode goes after every
/// episode that does not come strictly later, so equal keys keep their
/// input order.
pub open spec fn spec_insert_episode(s: Seq<Episode>, e: Episode) -> Seq<Episode>
    decreases s.len(),
{
    if s.len() == 0 {
        seq![e]
    } else if key_lt(e, s[0]) {
        seq![e] + s
    } else {
        seq![s[0]] + spec_insert_episode(s.drop_first(), e)
    }
}

/// Stable sort of a group by `(season, number)`.
pub open spec fn spec_sort_episodes(s: Seq<Episode>) -> Seq<Episode>
    decreases s.len(),
{
    if s.len() == 0 {
        Seq::empty()
    } else {
        spec_insert_episode(spec_sort_episodes(s.drop_last()), s.last())
    }
}

/// The episodes of `s` whose key is exactly `(season, number)`, in order.
pub open spec fn episodes_with_key(s: Seq<Episode>, season: i32, number: i32) -> Seq<Episode> {
    s.filter(|e: Episode| e.season == season && e.number == number)
}

proof fn lemma_key_filter_push(s: Seq<Episode>, x: Episode, season: i32, number: i32)
    ensures
        episodes_with_key(s.push(x), season, number) == if x.season == season && x.number
            == number {
            episodes_with_key(s, season, number).push(x)
        } else {
            episodes_with_key(s, season, number)
        },
{
    reveal(Seq::filter);
    assert(s.push(x).drop_last() =~= s);
    assert(s.push(x).last() == x);
}

proof fn lemma_key_filter_none(s: Seq<Episode>, season: i32, number: i32)
    requires
        forall|j: int| 0 <= j < s.len() ==> !((#[trigger] s[j]).season == season && s[j].number
            == number),
    ensures
        episodes_with_key(s, season, number) == Seq::<Episode>::empty(),
    decreases s.len(),
{
    reveal(Seq::filter);
    if s.len() > 0 {
        lemma_key_filter_none(s.drop_last(), season, number);
    } else {
        assert(episodes_with_key(s, season, number) =~= Seq::<Episode>::empty());
    }
}

proof fn lemma_key_filter_prepend(e: Episode, t: Seq<Episode>, season: i32, number: i32)
    ensures
        episodes_with_key(seq![e] + t, season, number) == episodes_with_key(
            seq![e],
            season,
            number,
        ) + episodes_with_key(t, season, number),
    decreases t.len(),
{
    if t.len() == 0 {
        assert(seq![e] + t =~= seq![e]);
        assert(episodes_with_key(t, season, number) =~= Seq::<Episode>::empty()) by {
            reveal(Seq::filter);
        }
        assert(episodes_with_key(seq![e], season, number) + Seq::<Episode>::empty()
            =~= episodes_with_key(seq![e], season, number));
    } else {
        let d = t.drop_last();
        let x = t.last();
        lemma_key_filter_prepend(e, d, season, number);
        assert(seq![e] + t =~= (seq![e] + d).push(x));
        assert(t =~= d.push(x));
        lemma_key_filter_push(seq![e] + d, x, season, number);
        lemma_key_filter_push(d, x, season, number);
        if x.season == season && x.number == number {
            assert(episodes_with_key(seq![e], season, number) + episodes_with_key(
                d,
                season,
                number,
            ).push(x) =~= (episodes_with_key(seq![e], season, number) + episodes_with_key(
                d,
                season,
                number,
            )).push(x));
        }
    }
}

proof fn lemma_insert_elems(t: Seq<Episode>, e: Episode)
    ensures
        spec_insert_episode(t, e).len() == t.len() + 1,
        forall|j: int|
            0 <= j < spec_insert_episode(t, e).len() ==> (#[trigger] spec_insert_episode(t, e)[j])
                == e || t.contains(spec_insert_episode(t, e)[j]),
    decreases t.len(),
{
    if t.len() > 0 && !key_lt(e, t[0]) {
        let d = t.drop_first();
        lemma_insert_elems(d, e);
        let r = spec_insert_episode(t, e);
        assert forall|j: int| 0 <= j < r.len() implies (#[trigger] r[j]) == e || t.contains(
            r[j],
        ) by {
            if j == 0 {
                assert(r[0] == t[0]);
                assert(t.contains(t[0]));
            } else {
                assert(r[j] == spec_insert_episode(d, e)[j - 1]);
                if spec_insert_episode(d, e)[j - 1] != e {
                    assert(d.contains(r[j]));
                    let k = choose|k: int| 0 <= k < d.len() && d[k] == r[j];
                    assert(t[k + 1] == r[j]);
                }
            }
        }
    }
}

proof fn lemma_insert_sorted(t: Seq<Episode>, e: Episode)
    requires
        episodes_sorted(t),
    ensures
        episodes_sorted(spec_insert_episode(t, e)),
    decreases t.len(),
{
    let r = spec_insert_episode(t, e);
    if t.len() == 0 {
    } else if key_lt(e, t[0]) {
        assert forall|i: int, j: int| 0 <= i < j < r.len() implies key_le(
            #[trigger] r[i],
            #[trigger] r[j],
        ) by {
            assert(r[j] == t[j - 1]);
            if i == 0 {
                assert(key_le(e, t[0]));
            } else {
                assert(r[i] == t[i - 1]);
            }
        }
    } else {
        let d = t.drop_first();
        assert(episodes_sorted(d));
        lemma_insert_sorted(d, e);
        lemma_insert_elems(d, e);
        let ri = spec_insert_episode(d, e);
        assert forall|i: int, j: int| 0 <= i < j < r.len() implies key_le(
            #[trigger] r[i],
            #[trigger] r[j],
        ) by {
            if i == 0 {
                assert(r[0] == t[0]);
                assert(r[j] == ri[j - 1]);
                if ri[j - 1] == e {
                    assert(key_le(t[0], e));
                } else {
                    assert(d.contains(ri[j - 1]));
                    let k = choose|k: int| 0 <= k < d.len() && d[k] == ri[j - 1];
                    assert(t[k + 1] == ri[j - 1]);
                    assert(key_le(t[0], t[k + 1]));
                }
            } else {
                assert(r[i] == ri[i - 1]);
                assert(r[j] == ri[j - 1]);
            }
        }
    }
}

proof fn lemma_sort_sorted(s: Seq<Episode>)
    ensures
        episodes_sorted(spec_sort_episodes(s)),
    decreases s.len(),
{
    if s.len() > 0 {
        lemma_sort_sorted(s.drop_last());
        lemma_insert_sorted(spec_sort_episodes(s.drop_last()), s.last());
    }
}

proof fn lemma_insert_key_filter(t: Seq<Episode>, e: Episode, season: i32, number: i32)
    requires
        episodes_sorted(t),
    ensures
        episodes_with_key(spec_insert_episode(t, e), season, number) == if e.season == season
            && e.number == number {
            episodes_with_key(t, season, number).push(e)
        } else {
            episodes_with_key(t, season, number)
        },
    decreases t.len(),
{
    if t.len() == 0 {
        assert(seq![e] =~= Seq::<Episode>::empty().push(e));
        lemma_key_filter_push(Seq::<Episode>::empty(), e, season, number);
        assert(episodes_with_key(Seq::<Episode>::empty(), season, number) =~= Seq::<
            Episode,
        >::empty()) by {
            reveal(Seq::filter);
        }
        assert(episodes_with_key(t, season, number) =~= Seq::<Episode>::empty()) by {
            reveal(Seq::filter);
        }
    } else if key_lt(e, t[0]) {
        lemma_key_filter_prepend(e, t, season, number);
        assert(episodes_with_key(seq![e], season, number) =~= Seq::<Episode>::empty().push(
            e,
        ).filter(|ep: Episode| ep.season == season && ep.number == number)) by {
            assert(seq![e] =~= Seq::<Episode>::empty().push(e));
        }
        lemma_key_filter_push(Seq::<Episode>::empty(), e, season, number);
        assert(episodes_with_key(Seq::<Episode>::empty(), season, number) =~= Seq::<
            Episode,
        >::empty()) by {
            reveal(Seq::filter);
        }
        if e.season == season && e.number == number {
            // Every key-equal episode of `t` would have to come strictly
            // after itself, so there is none.
            assert forall|j: int|
                0 <= j < t.len() implies !((#[trigger] t[j]).season == season && t[j].number
                == number) by {
                if t[j].season == season && t[j].number == number {
                    assert(key_le(t[0], t[j]));
                    assert(key_lt(e, t[j]));
                }
            }
            lemma_key_filter_none(t, season, number);
            assert(episodes_with_key(seq![e], season, number) + Seq::<Episode>::empty()
                =~= Seq::<Episode>::empty().push(e));
        } else {
            assert(episodes_with_key(seq![e], season, number) =~= Seq::<Episode>::empty());
            assert(Seq::<Episode>::empty() + episodes_with_key(t, season, number)
                =~= episodes_with_key(t, season, number));
        }
    } else {
        let d = t.drop_first();
        assert(episodes_sorted(d));
        lemma_insert_key_filter(d, e, season, number);
        lemma_key_filter_prepend(t[0], d, season, number);
        assert(seq![t[0]] + d =~= t);
        lemma_key_filter_prepend(t[0], spec_insert_episode(d, e), season, number);
        if e.season == season && e.number == number {
            assert(episodes_with_key(seq![t[0]], season, number) + episodes_with_key(
                d,
                season,
                number,
            ).push(e) =~= (episodes_with_key(seq![t[0]], season, number) + episodes_with_key(
                d,
                season,
                number,
            )).push(e));
        }
    }
}

/// The sort is stable and a permutation: for every key, it keeps exactly
/// the episodes with that key, in their input order.
pub proof fn lemma_sort_stable(s: Seq<Episode>, season: i32, number: i32)
    ensures
        episodes_with_key(spec_sort_episodes(s), season, number) == episodes_with_key(
            s,
            season,
            number,
        ),
    decreases s.len(),
{
    if s.len() == 0 {
    } else {
        let d = s.drop_last();
        lemma_sort_stable(d, season, number);
        lemma_sort_sorted(d);
        lemma_insert_key_filter(spec_sort_episodes(d), s.last(), season, number);
        assert(s =~= d.push(s.last()));
        lemma_key_filter_push(d, s.last(), season, number);
    }
}

/// Sorting is idempotent: sorting a second time changes nothing.
pub proof fn lemma_sort_idempotent(s: Seq<Episode>)
    ensures
        spec_sort_episodes(spec_sort_episodes(s)) == spec_sort_episodes(s),
{
    lemma_sort_sorted(s);
    lemma_sort_of_sorted(spec_sort_episodes(s));
}

proof fn lemma_insert_at(s: Seq<Episode>, e: Episode, pos: int)
    requires
        0 <= pos <= s.len(),
        forall|k: int| 0 <= k < pos ==> !key_lt(e, #[trigger] s[k]),
        pos < s.len() ==> key_lt(e, s[pos]),
    ensures
        spec_insert_episode(s, e) == s.insert(pos, e),
    decreases s.len(),
{
    if s.len() == 0 {
        assert(spec_insert_episode(s, e) =~= s.insert(0, e));
    } else if key_lt(e, s[0]) {
        assert(pos == 0);
        assert(spec_insert_episode(s, e) =~= s.insert(0, e));
    } else {
        assert(pos >= 1);
        let d = s.drop_first();
        assert(forall|k: int| 0 <= k < pos - 1 ==> !key_lt(e, #[trigger] d[k]));
        lemma_insert_at(d, e, pos - 1);
        assert(seq![s[0]] + d.insert(pos - 1, e) =~= s.insert(pos, e)) by {
            s.insert_ensures(pos, e);
            d.insert_ensures(pos - 1, e);
        }
    }
}

/// Re-sorting an already-sorted group yields the same order.
pub proof fn lemma_sort_of_sorted(s: Seq<Episode>)
    requires
        episodes_sorted(s),
    ensures
        spec_sort_episodes(s) == s,
    decreases s.len(),
{
    if s.len() == 0 {
        assert(spec_sort_episodes(s) =~= s);
    } else {
        let d = s.drop_last();
        assert(episodes_sorted(d));
        lemma_sort_of_sorted(d);
        assert(forall|k: int| 0 <= k < d.len() ==> !key_lt(s.last(), #[trigger] d[k]));
        lemma_insert_at(d, s.last(), d.len() as int);
        assert(d.insert(d.len() as int, s.last()) =~= s) by {
            d.insert_ensures(d.len() as int, s.last());
        }
    }
}

fn episode_lt(a: &Episode, b: &Episode) -> (r: bool)
    ensures
        r == key_lt(*a, *b),
{
    a.season < b.season || (a.season == b.season && a.number < b.number)
}

/// Sort a group's episodes by `(season, number)`, ascending.  The sort is
/// stable: episodes with equal keys keep their input order, and sorting
/// an already-sorted group returns it unchanged.
pub fn sort_episodes(episodes: Vec<Episode>) -> (r: Vec<Episode>)
    ensures
        r@ == spec_sort_episodes(episodes@),
        episodes_sorted(r@),
        episodes_sorted(episodes@) ==> r@ == episodes@,
{
    let ghost orig = episodes@;
    let mut rest = episodes;
    let mut out: Vec<Episode> = Vec::new();
    let ghost mut k: int = 0;
    while rest.len() > 0
        invariant
            0 <= k <= orig.len(),
            rest@ == orig.skip(k),
            out@ == spec_sort_episodes(orig.take(k)),
            episodes_sorted(out@),
        decreases rest@.len(),
    {
        let e = rest.remove(0);
        proof {
            assert(e == orig[k]);
            assert(rest@ =~= orig.skip(k + 1));
        }
        let mut pos: usize = 0;
        while pos < out.len() && !episode_lt(&e, &out[pos])
            invariant
                pos <= out@.len(),
                forall|t: int| 0 <= t < pos ==> !key_lt(e, #[trigger] out@[t]),
            decreases out@.len() - pos,
        {
            pos = pos + 1;
        }
        let ghost old_out = out@;
        out.insert(pos, e);
        proof {
            lemma_insert_at(old_out, e, pos as int);
            old_out.insert_ensures(pos as int, e);
            assert forall|i: int, j: int| 0 <= i < j < out@.len() implies key_le(
                #[trigger] out@[i],
                #[trigger] out@[j],
            ) by {
                if j < pos {
                } else if i < pos && j == pos {
                    assert(out@[i] == old_out[i]);
                    assert(!key_lt(e, old_out[i]));
                } else if i < pos && j > pos {
                    assert(out@[j] == old_out[j - 1]);
                } else if i == pos && j > pos {
                    assert(key_lt(e, old_out[pos as int]));
                    assert(out@[j] == old_out[j - 1]);
                    assert(key_le(old_out[pos as int], old_out[j - 1]));
                } else {
                    assert(out@[i] == old_out[i - 1]);
                    assert(out@[j] == old_out[j - 1]);
                }
            }
            assert(orig.take(k + 1).drop_last() =~= orig.take(k));
            assert(orig.take(k + 1).last() == orig[k]);
            k = k + 1;
            assert(out@ == spec_sort_episodes(orig.take(k)));
        }
    }
    proof {
        assert(orig.take(orig.len() as int) =~= orig);
        if episodes_sorted(orig) {
            lemma_sort_of_sorted(orig);
        }
    }
    out
}

/// Characters that are not allowed in a file name segment.
pub open spec fn spec_is_forbidden(c: char) -> bool {
    c == '<' || c == '>' || c == ':' || c == '"' || c == '/' || c == '\\' || c == '|'
        || c == '?' || c == '*'
}

/// A single character after sanitization: forbidden characters become `_`.
pub open spec fn spec_sanitize_char(c: char) -> char {
    if spec_is_forbidden(c) {
        '_'
    } else {
        c
    }
}

/// Sanitized form of a whole string: every forbidden character becomes `_`.
pub open spec fn spec_sanitize(s: Seq<char>) -> Seq<char> {
    s.map_values(|c: char| spec_sanitize_char(c))
}

/// Correct a file name so it is a valid Windows (and Unix) name:
/// each of `< > : " / \ | ? *` is replaced by `_`.
pub fn correct_file_name(name: &str) -> (r: String)
    ensures
        r@ == spec_sanitize(name@),
{
    let n: usize = name.unicode_len();
    let mut out: String = String::new();
    let mut i: usize = 0;
    while i < n
        invariant
            n == name@.len(),
            i <= n,
            out@ == spec_sanitize(name@.take(i as int)),
        decreases n - i,
    {
        let c = name.get_char(i);
        if c == '<' || c == '>' || c == ':' || c == '"' || c == '/' || c == '\\' || c == '|'
            || c == '?' || c == '*' {
            out.append("_");
            proof {
                reveal_strlit("_");
            }
        } else {
            let piece = name.substring_char(i, i + 1);
            out.append(piece);
        }
        proof {
            assert(name@.take(i + 1 as int).drop_last() =~= name@.take(i as int));
            assert(out@ =~= spec_sanitize(name@.take(i + 1 as int)));
        }
        i = i + 1;
    }
    proof {
        assert(name@.take(n as int) =~= name@);
    }
    out
}

/// The failure of planning one episode's relocation.
#[derive(Clone, Copy, Debug, PartialEq, Eq, Structural)]
pub enum StoreError {
    /// The source file name has no extension, so no destination file name
    /// can be formed.
    NoExtension,
}

/// The relocation of one episode, fully decided: where the copy goes, and
/// whether it is performed or only reported.
#[derive(Debug)]
pub struct StorePlan {
    pub dest: naming::ResolvedDestination,
    /// In dry-run mode the copy is only reported, never performed; the
    /// source file is left in place in every mode.
    pub perform_copy: bool,
}

/// Decide one episode's relocation from its canonical details: the
/// destination segments under the videos root, and whether to copy.
/// Dry-run mode never copies; no mode ever removes the source.
pub fn store_plan(
    episode: &Episode,
    info: &tmdb::tv_episodes::Episode,
    show_name: &str,
    dry_run: bool,
) -> (r: Result<StorePlan, StoreError>)
    requires
        info.season_number >= 0,
        info.episode_number >= 0,
    ensures
        match r {
            Ok(p) => {
                &&& cms::spec_extension(episode.path@) is Some
                &&& p.perform_copy == !dry_run
                &&& p.dest.show_dir@ == spec_sanitize(show_name@)
                &&& p.dest.season_dir@ == "Season "@ + naming::spec_pad2(
                    info.season_number as int,
                )
                &&& p.dest.file_name@ == naming::spec_episode_file_name(
                    show_name@,
                    info.season_number as int,
                    info.episode_number as int,
                    info.name@,
                    cms::spec_extension(episode.path@)->0,
                )
            },
            Err(e) => e == StoreError::NoExtension && cms::spec_extension(episode.path@) is None,
        },
{
    let ext = match cms::extension_of(episode.path.as_str()) {
        Some(ext) => ext,
        None => {
            return Err(StoreError::NoExtension);
        },
    };
    let dest = naming::resolve_destination(
        show_name,
        info.season_number,
        info.episode_number,
        info.name.as_str(),
        ext,
    );
    Ok(StorePlan { dest, perform_copy: !dry_run })
}

/// Character-by-character string comparison.
pub fn str_eq(a: &str, b: &str) -> (r: bool)
    ensures
        r == (a@ == b@),
{
    let na: usize = a.unicode_len();
    let nb: usize = b.unicode_len();
    if na != nb {
        proof {
            assert(a@ != b@) by {
                if a@ == b@ {
                    assert(a@.len() == b@.len());
                }
            }
        }
        return false;
    }
    let mut i: usize = 0;
    while i < na
        invariant
            na == a@.len(),
            na == b@.len(),
            i <= na,
            forall|k: int| 0 <= k < i ==> a@[k] == b@[k],
        decreases na - i,
    {
        if a.get_char(i) != b.get_char(i) {
            return false;
        }
        i = i + 1;
    }
    proof {
        assert(a@ =~= b@);
    }
    true
}

/// Sanitization is idempotent, and its output never contains a forbidden
/// character.
pub proof fn lemma_sanitize_idempotent(s: Seq<char>)
    ensures
        spec_sanitize(spec_sanitize(s)) == spec_sanitize(s),
        forall|i: int|
            0 <= i < spec_sanitize(s).len() ==> !spec_is_forbidden(
                #[trigger] spec_sanitize(s)[i],
            ),
{
    assert(spec_sanitize(spec_sanitize(s)) =~= spec_sanitize(s));
}

} // verus!

