use mediasort::cms::Episode;
use mediasort::cms::movies::Film;
use mediasort::cms::shows;
use mediasort::resolve::candidate_line;
use mediasort::resolve::make_query;
use mediasort::resolve::movie_candidate_line;
use mediasort::resolve::movie_query;
use mediasort::resolve::select_movie;
use mediasort::resolve::select_show;
use mediasort::resolve::ChoiceError;
use mediasort::sort_episodes;
use mediasort::tmdb;
use mediasort::tmdb::search::Movie;
use mediasort::tmdb::search::Movies;
use mediasort::tmdb::search::Show;
use mediasort::tmdb::search::Shows;

fn show(id: i32, name: &str) -> Show {
    Show {
        poster_path: format!("/poster{id}.jpg"),
        id,
        first_air_date: "2005-03-24".to_string(),
        original_name: name.to_string(),
    }
}

fn five_shows() -> Shows {
    Shows {
        results: vec![
            show(1, "Alpha"),
            show(2, "The Office"),
            show(3, "Gamma"),
            show(4, "Delta"),
            show(5, "Epsilon"),
        ],
    }
}

#[test]
fn query_replaces_punctuation_and_trims() {
    assert_eq!(make_query("The Office - "), "The Office");
    assert_eq!(make_query("  spaced  "), "spaced");
    assert_eq!(make_query("a.b_c"), "a b c");
    assert_eq!(make_query("---"), "");
    assert_eq!(make_query(""), "");
}

#[test]
fn movie_query_cuts_at_the_first_year() {
    assert_eq!(movie_query("Inception.2010.1080p.mkv"), "Inception");
    assert_eq!(movie_query("Brazil (1985).mkv"), "Brazil");
    assert_eq!(movie_query("No Year Here.mkv"), "No Year Here mkv");
}

#[test]
fn skip_declines_the_group() {
    let r = select_show(&five_shows(), "skip").unwrap();
    assert!(r.is_none());
}

#[test]
fn a_selection_is_one_indexed() {
    let r = select_show(&five_shows(), "2").unwrap().unwrap();
    assert_eq!(r.0, 2);
    assert_eq!(r.1, "The Office");
    let r = select_show(&five_shows(), "+3").unwrap().unwrap();
    assert_eq!(r.0, 3);
}

#[test]
fn out_of_range_selection_is_fatal() {
    assert_eq!(
        select_show(&five_shows(), "99").unwrap_err(),
        ChoiceError::OutOfRange
    );
    assert_eq!(
        select_show(&five_shows(), "0").unwrap_err(),
        ChoiceError::OutOfRange
    );
    let empty = Shows { results: Vec::new() };
    assert_eq!(select_show(&empty, "1").unwrap_err(), ChoiceError::OutOfRange);
}

#[test]
fn non_numeric_selection_is_fatal() {
    assert_eq!(
        select_show(&five_shows(), "two").unwrap_err(),
        ChoiceError::NotANumber
    );
    assert_eq!(
        select_show(&five_shows(), "").unwrap_err(),
        ChoiceError::NotANumber
    );
    assert_eq!(
        select_show(&five_shows(), "18446744073709551616").unwrap_err(),
        ChoiceError::NotANumber
    );
}

#[test]
fn movie_selection_yields_id_and_title() {
    let movies = Movies {
        results: vec![
            Movie {
                poster_path: Some("/m1.jpg".to_string()),
                release_date: "2010-07-16".to_string(),
                id: 27205,
                original_title: "Inception".to_string(),
                title: "Inception".to_string(),
            },
        ],
    };
    let r = select_movie(&movies, "1").unwrap().unwrap();
    assert_eq!(r.0, 27205);
    assert_eq!(r.1, "Inception");
    assert!(select_movie(&movies, "skip").unwrap().is_none());
}

#[test]
fn poster_urls_use_the_original_size() {
    assert_eq!(
        tmdb::poster("/abc.jpg"),
        "https://image.tmdb.org/t/p/original/abc.jpg"
    );
}

#[test]
fn candidate_lines_render_in_order() {
    let s = show(2, "The Office");
    assert_eq!(
        candidate_line(1, &s),
        "1. The Office (2005-03-24) https://image.tmdb.org/t/p/original/poster2.jpg"
    );
}

#[test]
fn movie_candidate_line_tolerates_a_missing_poster() {
    let m = Movie {
        poster_path: None,
        release_date: "1985-02-20".to_string(),
        id: 68,
        original_title: "Brazil".to_string(),
        title: "Brazil".to_string(),
    };
    assert_eq!(movie_candidate_line(1, &m), "1. Brazil (1985-02-20)  (Brazil)");
}

#[test]
fn sorting_orders_by_season_then_number() {
    fn ep(season: i32, number: i32, path: &str) -> Episode {
        Episode { season, number, path: path.to_string() }
    }
    let sorted = sort_episodes(vec![
        ep(2, 1, "a"),
        ep(1, 9, "b"),
        ep(2, 0, "c"),
        ep(1, 2, "d"),
    ]);
    let keys: Vec<(i32, i32)> = sorted.iter().map(|e| (e.season, e.number)).collect();
    assert_eq!(keys, vec![(1, 2), (1, 9), (2, 0), (2, 1)]);
}

#[test]
fn sorting_is_stable_and_idempotent() {
    fn ep(season: i32, number: i32, path: &str) -> Episode {
        Episode { season, number, path: path.to_string() }
    }
    let sorted = sort_episodes(vec![
        ep(1, 1, "first"),
        ep(1, 1, "second"),
        ep(1, 0, "third"),
    ]);
    let paths: Vec<&str> = sorted.iter().map(|e| e.path.as_str()).collect();
    assert_eq!(paths, vec!["third", "first", "second"]);
    let again = sort_episodes(sorted);
    let paths: Vec<&str> = again.iter().map(|e| e.path.as_str()).collect();
    assert_eq!(paths, vec!["third", "first", "second"]);
}

#[test]
fn show_episode_records_default_to_zero_numbering() {
    let e = shows::Episode::from_path("Show S03E07.mkv").unwrap();
    assert_eq!(e.season, 3);
    assert_eq!(e.number, 7);
    assert_eq!(e.src, "Show S03E07.mkv");
    assert_eq!(e.series, "");
    assert!(e.title.is_none());
    let e = shows::Episode::from_path("unmarked.mkv").unwrap();
    assert_eq!(e.season, 0);
    assert_eq!(e.number, 0);
}

#[test]
fn film_records_start_empty() {
    let f = Film::from_path("Brazil (1985).mkv");
    assert_eq!(f.src, "Brazil (1985).mkv");
    assert_eq!(f.title, "");
    assert_eq!(f.year, 0);
}
