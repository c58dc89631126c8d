use episode_renamer::{
    build_plan, extract_numbers, failures, is_canonical_episode_name, is_season_path,
    needs_confirmation, plan_entry, renames, sort_paths, str_le, target_for, to_chars,
    visit_kind, Candidate, Entry, Visit, Walker,
};

fn entry(dir: &str, name: &str) -> Entry {
    Entry {
        path: format!("{}/{}", dir, name),
        parent: dir.to_string(),
        name: name.to_string(),
    }
}

fn originals(plan: &[Candidate]) -> Vec<String> {
    plan.iter().map(|c| c.original.clone()).collect()
}

#[test]
fn extracts_two_numbers_and_extension() {
    assert_eq!(extract_numbers("1x05.mkv"), Some((1, 5, ".mkv".to_string())));
    assert_eq!(
        extract_numbers("Show Name - 1x05.mkv"),
        Some((1, 5, ".mkv".to_string()))
    );
    assert_eq!(
        extract_numbers("show.s2.e13.final.avi"),
        Some((2, 13, ".final.avi".to_string()))
    );
    assert_eq!(extract_numbers("ep 1 2"), Some((1, 2, String::new())));
}

#[test]
fn extraction_edges() {
    assert_eq!(extract_numbers("episode.mkv"), None);
    assert_eq!(extract_numbers("ep 3.mkv"), None);
    assert_eq!(extract_numbers(""), None);
    assert_eq!(extract_numbers("300x2.mkv"), None);
    assert_eq!(extract_numbers("2x256.mkv"), None);
    assert_eq!(extract_numbers("255x0.mkv"), Some((255, 0, ".mkv".to_string())));
    assert_eq!(extract_numbers("007-0001.mp4"), Some((7, 1, ".mp4".to_string())));
}

#[test]
fn canonical_names() {
    assert!(is_canonical_episode_name("S01E01.mkv"));
    assert!(is_canonical_episode_name("show s1e2 final.mkv"));
    assert!(is_canonical_episode_name("xS12e34"));
    assert!(!is_canonical_episode_name("S123E4.mkv"));
    assert!(!is_canonical_episode_name("1x05.mkv"));
    assert!(!is_canonical_episode_name("SE01"));
    assert!(!is_canonical_episode_name("S1E"));
}

#[test]
fn canonical_names_agree_with_the_regular_expression() {
    let re = regex::Regex::new(r"[Ss]\d\d?[Ee]\d\d?").unwrap();
    let names = [
        "S01E01.mkv", "s1e2", "S123E4.mkv", "show.S1E123.avi", "1x05.mkv", "SE01",
        "S1E", "ss1ee2", "aS9E9b", "S 1 E 2", "", "E01S01",
    ];
    for n in names {
        assert_eq!(is_canonical_episode_name(n), re.is_match(n), "{}", n);
    }
}

#[test]
fn season_paths() {
    assert!(is_season_path("/tv/Show/Season 1"));
    assert!(is_season_path("SEASON"));
    assert!(is_season_path("my_season_folder"));
    assert!(is_season_path("/food/seasoning"));
    assert!(is_season_path("sEaSoN"));
    assert!(!is_season_path("/tv/Show"));
    assert!(!is_season_path("seaso n"));
    assert!(!is_season_path(""));
}

#[test]
fn season_paths_agree_with_the_regular_expression() {
    let re = regex::RegexBuilder::new(".*season.*")
        .case_insensitive(true)
        .build()
        .unwrap();
    let paths = [
        "/tv/Show/Season 1", "SEASON", "my_season_folder", "seasoning", "/tv/Show", "seaso",
        "SeAsOn 12/extra", "", "reason",
    ];
    for p in paths {
        assert_eq!(is_season_path(p), re.is_match(p), "{}", p);
    }
}

#[test]
fn target_path_is_zero_padded() {
    assert_eq!(target_for("/tv/Season 1", 1, 5, ".mkv"), "/tv/Season 1/S01E05.mkv");
    assert_eq!(target_for("/tv/Season 1", 12, 34, ".avi"), "/tv/Season 1/S12E34.avi");
    assert_eq!(target_for("d", 123, 0, ""), "d/S123E00");
    assert_eq!(target_for("d", 0, 255, ".x"), "d/S00E255.x");
}

#[test]
fn plan_entry_classifies() {
    assert!(plan_entry(&entry("/s/Season 2", "S02E03.mkv")).is_none());
    let c = plan_entry(&entry("/s/Season 2", "2x03.mkv")).unwrap();
    assert_eq!(c.original, "/s/Season 2/2x03.mkv");
    assert_eq!(c.proposed, Some("/s/Season 2/S02E03.mkv".to_string()));
    let f = plan_entry(&entry("/s/Season 2", "notes.txt")).unwrap();
    assert_eq!(f.original, "/s/Season 2/notes.txt");
    assert_eq!(f.proposed, None);
}

#[test]
fn plan_is_sorted_by_original_path() {
    let d = "/tv/Season 1";
    let plan = build_plan(vec![entry(d, "b.mkv"), entry(d, "A.mkv"), entry(d, "c.mkv")]);
    assert_eq!(
        originals(&plan),
        vec![
            "/tv/Season 1/A.mkv".to_string(),
            "/tv/Season 1/b.mkv".to_string(),
            "/tv/Season 1/c.mkv".to_string(),
        ]
    );
    assert!(plan.iter().all(|c| c.proposed.is_none()));
    assert!(!needs_confirmation(&plan));
}

#[test]
fn canonical_only_directory_gives_empty_plan() {
    let d = "/tv/Season 1";
    let plan = build_plan(vec![entry(d, "S01E01.mkv"), entry(d, "S02E10.mkv")]);
    assert!(plan.is_empty());
    assert!(!needs_confirmation(&plan));
}

#[test]
fn mixed_plan_splits_into_failures_and_renames() {
    let d = "/tv/Season 3";
    let plan = build_plan(vec![
        entry(d, "show 3x07.mkv"),
        entry(d, "S03E01.mkv"),
        entry(d, "cover.jpg"),
        entry(d, "show 3x02.mkv"),
    ]);
    assert_eq!(plan.len(), 3);
    assert_eq!(failures(&plan), vec!["/tv/Season 3/cover.jpg".to_string()]);
    assert_eq!(
        renames(&plan),
        vec![
            (
                "/tv/Season 3/show 3x02.mkv".to_string(),
                "/tv/Season 3/S03E02.mkv".to_string()
            ),
            (
                "/tv/Season 3/show 3x07.mkv".to_string(),
                "/tv/Season 3/S03E07.mkv".to_string()
            ),
        ]
    );
    assert!(needs_confirmation(&plan));
}

#[test]
fn renamed_names_are_left_alone_next_time() {
    let d = "/tv/Season 1";
    let first = build_plan(vec![entry(d, "1x05.mkv"), entry(d, "1x06.mkv")]);
    let names: Vec<String> = renames(&first)
        .into_iter()
        .map(|(_, t)| t.rsplit('/').next().unwrap().to_string())
        .collect();
    assert_eq!(names, vec!["S01E05.mkv".to_string(), "S01E06.mkv".to_string()]);
    let second = build_plan(names.iter().map(|n| entry(d, n)).collect());
    assert!(second.is_empty());
}

#[test]
fn lexicographic_order() {
    assert!(str_le("A", "b"));
    assert!(!str_le("b", "A"));
    assert!(str_le("ab", "abc"));
    assert!(!str_le("abc", "ab"));
    assert!(str_le("same", "same"));
    assert!(str_le("", "x"));
    assert_eq!(to_chars("né"), vec!['n', 'é']);
    assert_eq!(
        sort_paths(vec!["c".to_string(), "a".to_string(), "B".to_string()]),
        vec!["B".to_string(), "a".to_string(), "c".to_string()]
    );
}

#[test]
fn walker_visits_in_sorted_depth_first_order() {
    let mut w = Walker::new("root");
    assert_eq!(w.next_path(), Some("root".to_string()));
    w.descend(vec!["root/b".to_string(), "root/a".to_string()]);
    assert_eq!(w.next_path(), Some("root/a".to_string()));
    w.descend(vec!["root/a/y".to_string(), "root/a/x".to_string()]);
    assert_eq!(w.next_path(), Some("root/a/x".to_string()));
    assert_eq!(w.next_path(), Some("root/a/y".to_string()));
    assert_eq!(w.next_path(), Some("root/b".to_string()));
    assert!(w.is_done());
    assert_eq!(w.next_path(), None);
}

#[test]
fn walker_stop_leaves_nothing_to_visit() {
    let mut w = Walker::new("root");
    assert_eq!(w.next_path(), Some("root".to_string()));
    w.descend(vec!["root/Season 2".to_string(), "root/Season 1".to_string()]);
    assert_eq!(w.next_path(), Some("root/Season 1".to_string()));
    w.stop();
    assert!(w.is_done());
    assert_eq!(w.next_path(), None);
}

#[test]
fn visit_kind_stops_at_season_directories() {
    assert_eq!(visit_kind("/tv/Show/Season 1"), Visit::Season);
    assert_eq!(visit_kind("/tv/Show"), Visit::Descend);
}
