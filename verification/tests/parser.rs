use mediasort::cms::Episode;
use mediasort::cms::NumberingError;
use mediasort::cms::is_video;
use mediasort::cms::pre_sort;

#[test]
fn parser_extracts_marker() {
    let e = Episode::from_path("The Office - S02E05 - extra.mkv")
        .unwrap()
        .unwrap();
    assert_eq!(e.season, 2);
    assert_eq!(e.number, 5);
    assert_eq!(e.path, "The Office - S02E05 - extra.mkv");
}

#[test]
fn parser_is_case_insensitive() {
    let e = Episode::from_path("show s1e2.mkv").unwrap().unwrap();
    assert_eq!(e.season, 1);
    assert_eq!(e.number, 2);
    let e = Episode::from_path("show S3e04.mp4").unwrap().unwrap();
    assert_eq!(e.season, 3);
    assert_eq!(e.number, 4);
}

#[test]
fn parser_uses_file_name_only() {
    let e = Episode::from_path("/videos/The Office - S02E05.mkv")
        .unwrap()
        .unwrap();
    assert_eq!(e.season, 2);
    assert_eq!(e.number, 5);
    assert_eq!(e.path, "/videos/The Office - S02E05.mkv");
    // A marker in a directory name does not classify the file.
    assert!(Episode::from_path("/S01E01/film.mkv").unwrap().is_none());
}

#[test]
fn parser_without_marker_is_unclassifiable() {
    assert!(Episode::from_path("holiday video.mp4").unwrap().is_none());
    assert!(Episode::from_path("SxEy.mkv").unwrap().is_none());
    assert!(Episode::from_path("S1EE2.mkv").unwrap().is_none());
    assert!(Episode::from_path("").unwrap().is_none());
}

#[test]
fn parser_takes_first_marker_with_maximal_digit_runs() {
    let e = Episode::from_path("a S10E20 b S1E2.mkv").unwrap().unwrap();
    assert_eq!(e.season, 10);
    assert_eq!(e.number, 20);
    // Digit runs end only at the first non-digit.
    let e = Episode::from_path("s007e0042.mkv").unwrap().unwrap();
    assert_eq!(e.season, 7);
    assert_eq!(e.number, 42);
}

#[test]
fn parser_overflow_is_loud() {
    assert_eq!(
        Episode::from_path("show S99999999999E1.mkv").unwrap_err(),
        NumberingError::SeasonTooLarge
    );
    assert_eq!(
        Episode::from_path("show S1E99999999999.mkv").unwrap_err(),
        NumberingError::EpisodeTooLarge
    );
    // Leading zeros do not overflow: only the value counts.
    let e = Episode::from_path("show S0000000001E2.mkv").unwrap().unwrap();
    assert_eq!(e.season, 1);
    assert_eq!(e.number, 2);
}

#[test]
fn grouping_buckets_by_raw_series_key() {
    let videos = vec![
        "The Office - S02E05 - extra.mkv".to_string(),
        "Parks - S01E01.mkv".to_string(),
        "The Office - S02E04.mkv".to_string(),
        "holiday video.mp4".to_string(),
    ];
    let groups = pre_sort(&videos).unwrap();
    assert_eq!(groups.len(), 2);
    let office = groups.iter().find(|g| g.key == "The Office - ").unwrap();
    assert_eq!(office.episodes.len(), 2);
    assert_eq!(office.episodes[0].number, 5);
    assert_eq!(office.episodes[1].number, 4);
    let parks = groups.iter().find(|g| g.key == "Parks - ").unwrap();
    assert_eq!(parks.episodes.len(), 1);
}

#[test]
fn grouping_never_holds_unmarked_files() {
    let videos = vec![
        "no marker here.mkv".to_string(),
        "Show S01E01.mkv".to_string(),
        "also none.mp4".to_string(),
    ];
    let groups = pre_sort(&videos).unwrap();
    assert_eq!(groups.len(), 1);
    for g in &groups {
        for e in &g.episodes {
            assert_eq!(e.path, "Show S01E01.mkv");
        }
    }
}

#[test]
fn grouping_keys_are_not_normalized() {
    // Superficially different prefixes form distinct buckets.
    let videos = vec![
        "Show S01E01.mkv".to_string(),
        "Show  S01E02.mkv".to_string(),
    ];
    let groups = pre_sort(&videos).unwrap();
    assert_eq!(groups.len(), 2);
}

#[test]
fn grouping_stops_at_first_overflow() {
    let videos = vec![
        "Show S01E01.mkv".to_string(),
        "Show S99999999999E1.mkv".to_string(),
    ];
    assert_eq!(pre_sort(&videos).unwrap_err(), NumberingError::SeasonTooLarge);
}

#[test]
fn video_extensions_are_case_sensitive() {
    assert!(is_video("a/b.mp4"));
    assert!(is_video("b.mkv"));
    assert!(!is_video("c.avi"));
    assert!(!is_video("c.MP4"));
    assert!(!is_video("noextension"));
    assert!(!is_video(".mkv"));
}
