use playscript::cue::Cue;
use playscript::diagnostics::{Diagnostics, Warning};
use playscript::player::Player;
use playscript::scene_fragments::{PlayConfig, SceneFragment};
use playscript::shelf::{LoadError, Shelf};

fn strings(lines: &[&str]) -> Vec<String> {
    lines.iter().map(|s| s.to_string()).collect()
}

fn shelf_of(files: &[(&str, &[&str])]) -> Shelf {
    let mut shelf = Shelf::new();
    for (path, lines) in files {
        shelf.put(path.to_string(), strings(lines));
    }
    shelf
}

fn fragment_of(title: &str, cast: &[(&str, &[&str])]) -> SceneFragment {
    let mut shelf = Shelf::new();
    let mut config: Vec<String> = Vec::new();
    for (name, lines) in cast {
        let path = format!("{}.txt", name);
        config.push(format!("{} {}", name, path));
        shelf.put(path, strings(lines));
    }
    shelf.put("cast.txt".to_string(), config);
    let mut diag = Diagnostics::new(false);
    let mut fragment = SceneFragment::new(&title.to_string());
    if !cast.is_empty() {
        assert_eq!(fragment.prepare(&"cast.txt".to_string(), &shelf, &mut diag), Ok(()));
    }
    fragment
}

fn names_of(fragment: &SceneFragment) -> Vec<&str> {
    fragment.chars_in_play.iter().map(|p| p.char_name.as_str()).collect()
}

fn recited(fragment: &mut SceneFragment, whinge: bool) -> (Vec<Cue>, Vec<Warning>) {
    let mut diag = Diagnostics::new(whinge);
    let mut transcript: Vec<Cue> = Vec::new();
    assert_eq!(fragment.recite(&mut diag, &mut transcript), Ok(()));
    (transcript, diag.warnings)
}

fn spoken_lines(transcript: &[Cue]) -> Vec<&str> {
    transcript
        .iter()
        .filter_map(|c| match c {
            Cue::Line(t) => Some(t.as_str()),
            _ => None,
        })
        .collect()
}

#[test]
fn new_fragment_has_a_title_and_no_cast() {
    let fragment = SceneFragment::new(&"Act I".to_string());
    assert_eq!(fragment.scene_title, "Act I");
    assert!(fragment.chars_in_play.is_empty());
}

#[test]
fn cast_line_with_two_tokens_is_taken() {
    let fragment = SceneFragment::new(&String::new());
    let mut config: PlayConfig = Vec::new();
    let mut diag = Diagnostics::new(true);
    fragment.add_config(&"  Bob   path.txt ".to_string(), &mut config, &mut diag);
    assert_eq!(config, vec![("Bob".to_string(), "path.txt".to_string())]);
    assert!(diag.warnings.is_empty());
}

#[test]
fn cast_line_with_three_tokens_drops_the_third_with_a_warning() {
    let fragment = SceneFragment::new(&String::new());
    let mut config: PlayConfig = Vec::new();
    let mut diag = Diagnostics::new(true);
    fragment.add_config(&"Bob path.txt extra".to_string(), &mut config, &mut diag);
    assert_eq!(config, vec![("Bob".to_string(), "path.txt".to_string())]);
    assert_eq!(diag.warnings, vec![Warning::ExtraCastTokens]);
}

#[test]
fn three_token_cast_line_loads_the_player_from_the_second_token() {
    let shelf = shelf_of(&[("cast.txt", &["Bob path.txt extra"]), ("path.txt", &["0 Hello"])]);
    let mut diag = Diagnostics::new(true);
    let mut fragment = SceneFragment::new(&"Scene".to_string());
    assert_eq!(fragment.prepare(&"cast.txt".to_string(), &shelf, &mut diag), Ok(()));
    assert_eq!(names_of(&fragment), vec!["Bob"]);
    assert_eq!(fragment.chars_in_play[0].char_lines, vec![(0, "Hello".to_string())]);
    assert_eq!(diag.warnings, vec![Warning::ExtraCastTokens]);
}

#[test]
fn short_cast_lines_are_dropped_with_a_warning() {
    let fragment = SceneFragment::new(&String::new());
    let mut config: PlayConfig = Vec::new();
    let mut diag = Diagnostics::new(true);
    fragment.add_config(&"Bob".to_string(), &mut config, &mut diag);
    fragment.add_config(&"".to_string(), &mut config, &mut diag);
    assert!(config.is_empty());
    assert_eq!(diag.warnings, vec![Warning::ShortCastLine, Warning::ShortCastLine]);
}

#[test]
fn cast_warnings_are_silent_without_diagnostics() {
    let fragment = SceneFragment::new(&String::new());
    let mut config: PlayConfig = Vec::new();
    let mut diag = Diagnostics::new(false);
    fragment.add_config(&"Bob path.txt extra".to_string(), &mut config, &mut diag);
    fragment.add_config(&"Bob".to_string(), &mut config, &mut diag);
    assert_eq!(config.len(), 1);
    assert!(diag.warnings.is_empty());
}

#[test]
fn read_config_gathers_the_entries_in_file_order() {
    let shelf = shelf_of(&[("cast.txt", &["A a.txt", "", "B b.txt x", "C"])]);
    let mut fragment = SceneFragment::new(&String::new());
    let mut config: PlayConfig = Vec::new();
    let mut diag = Diagnostics::new(true);
    let res = fragment.read_config(&"cast.txt".to_string(), &shelf, &mut config, &mut diag);
    assert_eq!(res, Ok(()));
    assert_eq!(
        config,
        vec![("A".to_string(), "a.txt".to_string()), ("B".to_string(), "b.txt".to_string())]
    );
    assert_eq!(
        diag.warnings,
        vec![Warning::ShortCastLine, Warning::ExtraCastTokens, Warning::ShortCastLine]
    );
}

#[test]
fn cast_file_without_entries_is_an_error() {
    for lines in [&[][..], &["", "lonely"][..]] {
        let shelf = shelf_of(&[("cast.txt", lines)]);
        let mut fragment = SceneFragment::new(&"Scene".to_string());
        let mut diag = Diagnostics::new(false);
        let res = fragment.prepare(&"cast.txt".to_string(), &shelf, &mut diag);
        assert_eq!(res, Err(LoadError::Empty("cast.txt".to_string())));
        assert!(fragment.chars_in_play.is_empty());
    }
}

#[test]
fn missing_cast_file_is_an_error() {
    let shelf = Shelf::new();
    let mut fragment = SceneFragment::new(&"Scene".to_string());
    let mut diag = Diagnostics::new(true);
    let res = fragment.prepare(&"cast.txt".to_string(), &shelf, &mut diag);
    assert_eq!(res, Err(LoadError::Missing("cast.txt".to_string())));
}

#[test]
fn one_bad_dialogue_file_fails_the_whole_fragment() {
    let mut shelf = shelf_of(&[("cast.txt", &["A a.txt", "B b.txt", "C c.txt"]), ("a.txt", &["0 x", "bad"])]);
    shelf.put_unreadable("b.txt".to_string());
    let mut fragment = SceneFragment::new(&"Scene".to_string());
    let mut diag = Diagnostics::new(true);
    let res = fragment.prepare(&"cast.txt".to_string(), &shelf, &mut diag);
    assert_eq!(res, Err(LoadError::Unreadable("b.txt".to_string())));
    assert!(fragment.chars_in_play.is_empty());
    assert_eq!(diag.warnings, vec![Warning::MalformedLine("bad".to_string())]);
}

#[test]
fn process_config_keeps_the_order_of_the_entries() {
    let shelf = shelf_of(&[("a.txt", &["5 late"]), ("b.txt", &["1 early"])]);
    let config: PlayConfig = vec![
        ("A".to_string(), "a.txt".to_string()),
        ("B".to_string(), "b.txt".to_string()),
    ];
    let mut fragment = SceneFragment::new(&String::new());
    let mut diag = Diagnostics::new(false);
    assert_eq!(fragment.process_config(&config, &shelf, &mut diag), Ok(()));
    assert_eq!(names_of(&fragment), vec!["A", "B"]);
}

#[test]
fn cast_is_sorted_by_first_line_number() {
    let fragment = fragment_of(
        "Scene",
        &[
            ("Late", &["7 g", "9 i"]),
            ("Silent", &[]),
            ("Early", &["3 c", "1 a"]),
            ("AlsoLate", &["7 h"]),
            ("Mute", &["no number here"]),
        ],
    );
    assert_eq!(names_of(&fragment), vec!["Silent", "Mute", "Early", "Late", "AlsoLate"]);
}

#[test]
fn recite_merges_the_dialogue_by_line_number() {
    let mut fragment = fragment_of(
        "Scene",
        &[("Alice", &["0 a0", "2 a2", "3 a3"]), ("Bob", &["1 b1", "4 b4"])],
    );
    let (transcript, warnings) = recited(&mut fragment, true);
    assert_eq!(
        transcript,
        vec![
            Cue::Blank,
            Cue::Speaker("Alice".to_string()),
            Cue::Line("a0".to_string()),
            Cue::Blank,
            Cue::Speaker("Bob".to_string()),
            Cue::Line("b1".to_string()),
            Cue::Blank,
            Cue::Speaker("Alice".to_string()),
            Cue::Line("a2".to_string()),
            Cue::Line("a3".to_string()),
            Cue::Blank,
            Cue::Speaker("Bob".to_string()),
            Cue::Line("b4".to_string()),
        ]
    );
    assert!(warnings.is_empty());
    for player in &fragment.chars_in_play {
        assert_eq!(player.cur_entry_idx, player.char_lines.len());
    }
}

#[test]
fn recite_speaks_every_line_once_in_ascending_order() {
    let mut fragment = fragment_of(
        "Scene",
        &[
            ("A", &["4 a4", "0 a0", "9 a9", "4 a4bis"]),
            ("B", &["4 b4", "1 b1", "9 b9"]),
            ("C", &[]),
            ("D", &["2 d2", "4 d4"]),
        ],
    );
    assert_eq!(names_of(&fragment), vec!["C", "A", "B", "D"]);
    let (transcript, _) = recited(&mut fragment, false);
    assert_eq!(
        spoken_lines(&transcript),
        vec!["a0", "b1", "d2", "a4", "a4bis", "b4", "d4", "a9", "b9"]
    );
}

#[test]
fn lines_of_one_number_go_by_cast_order() {
    let mut fragment = fragment_of(
        "Scene",
        &[("First", &["1 f", "5 tie-first"]), ("Second", &["2 s", "5 tie-second"])],
    );
    let (transcript, warnings) = recited(&mut fragment, true);
    assert_eq!(spoken_lines(&transcript), vec!["f", "s", "tie-first", "tie-second"]);
    assert_eq!(warnings, vec![Warning::DuplicateLine(5), Warning::FirstLineNotZero]);
}

#[test]
fn recite_warns_of_duplicates_and_of_a_late_start() {
    let mut fragment = fragment_of("Scene", &[("A", &["3 x", "3 y"]), ("B", &["3 z", "8 w"])]);
    let (_, warnings) = recited(&mut fragment, true);
    assert_eq!(
        warnings,
        vec![Warning::DuplicateLine(3), Warning::DuplicateLine(3), Warning::FirstLineNotZero]
    );
    let mut quiet = fragment_of("Scene", &[("A", &["3 x", "3 y"])]);
    let (_, none) = recited(&mut quiet, false);
    assert!(none.is_empty());
}

#[test]
fn recite_of_a_cast_without_lines_says_nothing() {
    let mut fragment = fragment_of("Scene", &[("A", &[]), ("B", &["nothing numbered"])]);
    let (transcript, warnings) = recited(&mut fragment, true);
    assert!(transcript.is_empty());
    assert!(warnings.is_empty());
    let mut empty = SceneFragment::new(&"Scene".to_string());
    let (nothing, silent) = recited(&mut empty, true);
    assert!(nothing.is_empty());
    assert!(silent.is_empty());
}

#[test]
fn recite_twice_speaks_nothing_the_second_time() {
    let mut fragment = fragment_of("Scene", &[("A", &["0 a"]), ("B", &["1 b"])]);
    let (first, _) = recited(&mut fragment, false);
    assert_eq!(spoken_lines(&first), vec!["a", "b"]);
    let (second, _) = recited(&mut fragment, false);
    assert!(second.is_empty());
}

#[test]
fn recite_goes_on_from_the_cursors() {
    let mut fragment = fragment_of("Scene", &[("A", &["0 a0", "2 a2", "2 a2bis"]), ("B", &["1 b1", "3 b3"])]);
    fragment.chars_in_play[0].cur_entry_idx = 2;
    fragment.chars_in_play[1].cur_entry_idx = 1;
    let (transcript, _) = recited(&mut fragment, false);
    assert_eq!(spoken_lines(&transcript), vec!["a2bis", "b3"]);
}

#[test]
fn members_of_one_name_share_a_heading() {
    let mut shelf = shelf_of(&[("cast.txt", &["Twin one.txt", "Twin two.txt"])]);
    shelf.put("one.txt".to_string(), strings(&["0 first"]));
    shelf.put("two.txt".to_string(), strings(&["1 second"]));
    let mut diag = Diagnostics::new(false);
    let mut fragment = SceneFragment::new(&"Scene".to_string());
    assert_eq!(fragment.prepare(&"cast.txt".to_string(), &shelf, &mut diag), Ok(()));
    let (transcript, _) = recited(&mut fragment, false);
    assert_eq!(
        transcript,
        vec![
            Cue::Blank,
            Cue::Speaker("Twin".to_string()),
            Cue::Line("first".to_string()),
            Cue::Line("second".to_string()),
        ]
    );
}

#[test]
fn enter_all_announces_title_and_everyone() {
    let fragment = fragment_of("Elsinore", &[("Alice", &["0 a"]), ("Bob", &["1 b"])]);
    let mut transcript: Vec<Cue> = Vec::new();
    fragment.enter_all(&mut transcript);
    assert_eq!(
        transcript,
        vec![
            Cue::OpeningTitle("Elsinore".to_string()),
            Cue::Enter("Alice".to_string()),
            Cue::Enter("Bob".to_string()),
        ]
    );
}

#[test]
fn blank_title_is_not_announced() {
    for title in ["", " \t "] {
        let fragment = fragment_of(title, &[("Alice", &["0 a"])]);
        let mut transcript: Vec<Cue> = Vec::new();
        fragment.enter_all(&mut transcript);
        fragment.enter(&SceneFragment::new(&String::new()), &mut transcript);
        assert_eq!(
            transcript,
            vec![Cue::Enter("Alice".to_string()), Cue::Enter("Alice".to_string())]
        );
    }
}

#[test]
fn exit_all_announces_everyone_in_reverse() {
    let fragment = fragment_of("Elsinore", &[("Alice", &["0 a"]), ("Bob", &["1 b"]), ("Carol", &["2 c"])]);
    let mut transcript: Vec<Cue> = Vec::new();
    fragment.exit_all(&mut transcript);
    assert_eq!(
        transcript,
        vec![
            Cue::Exit("Carol".to_string()),
            Cue::Exit("Bob".to_string()),
            Cue::Exit("Alice".to_string()),
        ]
    );
}

#[test]
fn shared_character_neither_enters_nor_leaves() {
    let first = fragment_of("One", &[("Alice", &["0 a"])]);
    let second = fragment_of("", &[("Alice", &["2 a"]), ("Bob", &["3 b"])]);
    let mut entered: Vec<Cue> = Vec::new();
    second.enter(&first, &mut entered);
    assert_eq!(entered, vec![Cue::Enter("Bob".to_string())]);
    let mut left: Vec<Cue> = Vec::new();
    first.exit(&second, &mut left);
    assert_eq!(left, vec![Cue::Blank]);
}

#[test]
fn only_those_who_do_not_stay_leave() {
    let first = fragment_of("One", &[("Alice", &["0 a"]), ("Carol", &["1 c"])]);
    let second = fragment_of("", &[("Alice", &["2 a"])]);
    let mut left: Vec<Cue> = Vec::new();
    first.exit(&second, &mut left);
    assert_eq!(left, vec![Cue::Exit("Carol".to_string()), Cue::Blank]);
    let mut entered: Vec<Cue> = Vec::new();
    second.enter(&first, &mut entered);
    assert!(entered.is_empty());
}

#[test]
fn leavers_go_in_reverse_cast_order() {
    let first = fragment_of(
        "One",
        &[("Alice", &["0 a"]), ("Bob", &["1 b"]), ("Carol", &["2 c"]), ("Dan", &["3 d"])],
    );
    let second = fragment_of("Two", &[("Bob", &["4 b"]), ("Eve", &["5 e"])]);
    let mut left: Vec<Cue> = Vec::new();
    first.exit(&second, &mut left);
    assert_eq!(
        left,
        vec![
            Cue::Exit("Dan".to_string()),
            Cue::Exit("Carol".to_string()),
            Cue::Exit("Alice".to_string()),
            Cue::Blank,
        ]
    );
    let mut entered: Vec<Cue> = Vec::new();
    second.enter(&first, &mut entered);
    assert_eq!(
        entered,
        vec![Cue::Title("Two".to_string()), Cue::Enter("Eve".to_string())]
    );
}

#[test]
fn entrances_and_exits_complement_each_other() {
    let earlier = fragment_of("One", &[("A", &["0 a"]), ("B", &["1 b"]), ("C", &["2 c"])]);
    let later = fragment_of("", &[("B", &["3 b"]), ("D", &["4 d"]), ("A", &["5 a"])]);
    let mut entered: Vec<Cue> = Vec::new();
    later.enter(&earlier, &mut entered);
    let mut left: Vec<Cue> = Vec::new();
    earlier.exit(&later, &mut left);
    for name in ["A", "B", "C", "D", "E"] {
        let before = earlier.has_name(&name.to_string());
        let after = later.has_name(&name.to_string());
        assert_eq!(entered.contains(&Cue::Enter(name.to_string())), after && !before);
        assert_eq!(left.contains(&Cue::Exit(name.to_string())), before && !after);
    }
}

#[test]
fn has_name_goes_by_equal_names() {
    let fragment = fragment_of("One", &[("Alice", &["0 a"])]);
    assert!(fragment.has_name(&"Alice".to_string()));
    assert!(!fragment.has_name(&"alice".to_string()));
    assert!(!fragment.has_name(&String::new()));
    let player = Player::new(&"Alice".to_string());
    assert!(fragment.has_name(&player.char_name));
}
