use mediasort::cms::Episode;
use mediasort::correct_file_name;
use mediasort::naming::dec_string;
use mediasort::naming::pad2;
use mediasort::naming::resolve_destination;
use mediasort::store_plan;
use mediasort::tmdb::tv_episodes;
use mediasort::StoreError;

#[test]
fn sanitization_replaces_every_forbidden_character() {
    assert_eq!(correct_file_name("a<b>c:d\"e/f\\g|h?i*j"), "a_b_c_d_e_f_g_h_i_j");
    assert_eq!(correct_file_name("plain name.mkv"), "plain name.mkv");
    assert_eq!(correct_file_name(""), "");
}

#[test]
fn sanitization_is_idempotent() {
    let once = correct_file_name("What? A/B: the \"story\"");
    let twice = correct_file_name(&once);
    assert_eq!(once, twice);
    for c in ['<', '>', ':', '"', '/', '\\', '|', '?', '*'] {
        assert!(!once.contains(c));
    }
}

#[test]
fn numbers_render_in_decimal() {
    assert_eq!(dec_string(0), "0");
    assert_eq!(dec_string(7), "7");
    assert_eq!(dec_string(2050), "2050");
}

#[test]
fn season_and_episode_are_at_least_two_digits() {
    assert_eq!(pad2(3), "03");
    assert_eq!(pad2(0), "00");
    assert_eq!(pad2(12), "12");
    assert_eq!(pad2(123), "123");
}

#[test]
fn destination_layout_is_canonical() {
    let d = resolve_destination("The Office", 2, 5, "Stress Relief", "mkv");
    assert_eq!(d.show_dir, "The Office");
    assert_eq!(d.season_dir, "Season 02");
    assert_eq!(d.file_name, "The Office - s02e05 - Stress Relief.mkv");
    assert_eq!(
        d.relative_path(),
        "Series/The Office/Season 02/The Office - s02e05 - Stress Relief.mkv"
    );
}

#[test]
fn destination_title_with_separator_is_neutralized() {
    let d = resolve_destination("A/B", 1, 2, "x/y", "mkv");
    assert_eq!(d.show_dir, "A_B");
    assert_eq!(d.file_name, "A_B - s01e02 - x_y.mkv");
}

#[test]
fn store_plan_builds_the_destination() {
    let episode = Episode::from_path("The Office - S02E05 - extra.mkv")
        .unwrap()
        .unwrap();
    let info = tv_episodes::Episode {
        episode_number: 5,
        name: "Stress Relief".to_string(),
        season_number: 2,
    };
    let plan = store_plan(&episode, &info, "The Office", false).unwrap();
    assert!(plan.perform_copy);
    assert_eq!(plan.dest.file_name, "The Office - s02e05 - Stress Relief.mkv");
    assert_eq!(plan.dest.season_dir, "Season 02");
}

#[test]
fn store_plan_empty_title_leaves_no_trailing_separator() {
    let episode = Episode::from_path("The Office - S02E05.mkv").unwrap().unwrap();
    let info = tv_episodes::Episode {
        episode_number: 5,
        name: String::new(),
        season_number: 2,
    };
    let plan = store_plan(&episode, &info, "The Office", false).unwrap();
    assert_eq!(plan.dest.file_name, "The Office - s02e05.mkv");
}

#[test]
fn store_plan_dry_run_never_copies() {
    let episode = Episode::from_path("Show S01E01.mkv").unwrap().unwrap();
    let info = tv_episodes::Episode {
        episode_number: 1,
        name: String::new(),
        season_number: 1,
    };
    let dry = store_plan(&episode, &info, "Show", true).unwrap();
    assert!(!dry.perform_copy);
    let wet = store_plan(&episode, &info, "Show", false).unwrap();
    assert!(wet.perform_copy);
}

#[test]
fn store_plan_without_extension_fails() {
    let episode = Episode::from_path("Show S01E01").unwrap().unwrap();
    let info = tv_episodes::Episode {
        episode_number: 1,
        name: String::new(),
        season_number: 1,
    };
    assert_eq!(
        store_plan(&episode, &info, "Show", false).unwrap_err(),
        StoreError::NoExtension
    );
}
