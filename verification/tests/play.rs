use playscript::command_line::{parse_args, perform, usage};
use playscript::cue::Cue;
use playscript::diagnostics::{Diagnostics, Warning};
use playscript::play::{Play, ScriptConfig, ScriptDirective};
use playscript::return_wrapper::ReturnWrapper;
use playscript::shelf::{LoadError, Shelf};

fn strings(lines: &[&str]) -> Vec<String> {
    lines.iter().map(|s| s.to_string()).collect()
}

fn shelf_of(files: &[(&str, &[&str])]) -> Shelf {
    let mut shelf = Shelf::new();
    for (path, lines) in files {
        shelf.put(path.to_string(), strings(lines));
    }
    shelf
}

fn performed(shelf: &Shelf, whinge: bool) -> (Result<(), LoadError>, Vec<Cue>, Vec<Warning>) {
    let mut diag = Diagnostics::new(whinge);
    let mut transcript: Vec<Cue> = Vec::new();
    let res = perform(&"script.txt".to_string(), shelf, &mut diag, &mut transcript);
    (res, transcript, diag.warnings)
}

fn two_scene_shelf() -> Shelf {
    shelf_of(&[
        ("script.txt", &["[scene] The  Castle", "one.txt", "", "two.txt trailing", "[scene] The Heath", "three.txt"]),
        ("one.txt", &["Alice alice1.txt", "Carol carol1.txt"]),
        ("two.txt", &["Alice alice2.txt", "Bob bob2.txt"]),
        ("three.txt", &["Bob bob3.txt"]),
        ("alice1.txt", &["0 Who is there?", "2 Stand."]),
        ("carol1.txt", &["1 A friend."]),
        ("alice2.txt", &["3 Welcome."]),
        ("bob2.txt", &["4 Thanks.", "5 Farewell."]),
        ("bob3.txt", &["0 Alone at last."]),
    ])
}

#[test]
fn new_play_has_no_fragments() {
    let play = Play::new();
    assert!(play.fragments().is_empty());
}

#[test]
fn reciting_an_empty_play_says_nothing() {
    let mut play = Play::new();
    let mut diag = Diagnostics::new(true);
    let mut transcript: Vec<Cue> = Vec::new();
    assert_eq!(play.recite(&mut diag, &mut transcript), Ok(()));
    assert!(transcript.is_empty());
    assert!(diag.warnings.is_empty());
}

#[test]
fn script_lines_become_directives() {
    let play = Play::new();
    let mut config: ScriptConfig = Vec::new();
    let mut diag = Diagnostics::new(true);
    play.add_config(&"[scene]   A   dark  night ".to_string(), &mut config, &mut diag);
    play.add_config(&"".to_string(), &mut config, &mut diag);
    play.add_config(&"cast.txt".to_string(), &mut config, &mut diag);
    play.add_config(&"[scene]".to_string(), &mut config, &mut diag);
    play.add_config(&"more.txt and more".to_string(), &mut config, &mut diag);
    play.add_config(&"[scene]x y".to_string(), &mut config, &mut diag);
    assert_eq!(
        config,
        vec![
            ScriptDirective::Title("A dark night".to_string()),
            ScriptDirective::FragmentConfigRef("cast.txt".to_string()),
            ScriptDirective::FragmentConfigRef("more.txt".to_string()),
            ScriptDirective::FragmentConfigRef("[scene]x".to_string()),
        ]
    );
    assert_eq!(
        diag.warnings,
        vec![
            Warning::MissingTitle,
            Warning::ExtraScriptTokens("more.txt".to_string()),
            Warning::ExtraScriptTokens("[scene]x".to_string()),
        ]
    );
}

#[test]
fn read_config_fails_on_a_script_without_directives() {
    let play = Play::new();
    for lines in [&[][..], &["", "[scene]"][..]] {
        let shelf = shelf_of(&[("script.txt", lines)]);
        let mut config: ScriptConfig = Vec::new();
        let mut diag = Diagnostics::new(false);
        let res = play.read_config(&"script.txt".to_string(), &shelf, &mut config, &mut diag);
        assert_eq!(res, Err(LoadError::Empty("script.txt".to_string())));
        assert!(config.is_empty());
    }
}

#[test]
fn titles_go_to_the_fragment_that_follows_them() {
    let shelf = two_scene_shelf();
    let mut play = Play::new();
    let mut diag = Diagnostics::new(true);
    assert_eq!(play.prepare(&"script.txt".to_string(), &shelf, &mut diag), Ok(()));
    let titles: Vec<&str> = play.fragments().iter().map(|f| f.scene_title.as_str()).collect();
    assert_eq!(titles, vec!["The Castle", "", "The Heath"]);
    let casts: Vec<Vec<&str>> = play
        .fragments()
        .iter()
        .map(|f| f.chars_in_play.iter().map(|p| p.char_name.as_str()).collect())
        .collect();
    assert_eq!(casts, vec![vec!["Alice", "Carol"], vec!["Alice", "Bob"], vec!["Bob"]]);
    assert_eq!(diag.warnings, vec![Warning::ExtraScriptTokens("two.txt".to_string())]);
}

#[test]
fn a_later_title_replaces_a_waiting_one() {
    let shelf = shelf_of(&[
        ("script.txt", &["[scene] Dropped", "[scene] Kept", "one.txt"]),
        ("one.txt", &["A a.txt"]),
        ("a.txt", &["0 x"]),
    ]);
    let mut play = Play::new();
    let mut diag = Diagnostics::new(false);
    assert_eq!(play.prepare(&"script.txt".to_string(), &shelf, &mut diag), Ok(()));
    assert_eq!(play.fragments().len(), 1);
    assert_eq!(play.fragments()[0].scene_title, "Kept");
}

#[test]
fn whole_play_is_recited_fragment_by_fragment() {
    let (res, transcript, warnings) = performed(&two_scene_shelf(), true);
    assert_eq!(res, Ok(()));
    let s = |t: &str| t.to_string();
    assert_eq!(
        transcript,
        vec![
            Cue::OpeningTitle(s("The Castle")),
            Cue::Enter(s("Alice")),
            Cue::Enter(s("Carol")),
            Cue::Blank,
            Cue::Speaker(s("Alice")),
            Cue::Line(s("Who is there?")),
            Cue::Blank,
            Cue::Speaker(s("Carol")),
            Cue::Line(s("A friend.")),
            Cue::Blank,
            Cue::Speaker(s("Alice")),
            Cue::Line(s("Stand.")),
            Cue::Exit(s("Carol")),
            Cue::Blank,
            Cue::Enter(s("Bob")),
            Cue::Blank,
            Cue::Speaker(s("Alice")),
            Cue::Line(s("Welcome.")),
            Cue::Blank,
            Cue::Speaker(s("Bob")),
            Cue::Line(s("Thanks.")),
            Cue::Line(s("Farewell.")),
            Cue::Exit(s("Alice")),
            Cue::Blank,
            Cue::Title(s("The Heath")),
            Cue::Blank,
            Cue::Speaker(s("Bob")),
            Cue::Line(s("Alone at last.")),
            Cue::Exit(s("Bob")),
        ]
    );
    assert_eq!(
        warnings,
        vec![Warning::ExtraScriptTokens(s("two.txt")), Warning::FirstLineNotZero]
    );
}

#[test]
fn speaker_heading_starts_anew_in_each_fragment() {
    let shelf = shelf_of(&[
        ("script.txt", &["[scene] One", "one.txt", "two.txt"]),
        ("one.txt", &["Alice a1.txt"]),
        ("two.txt", &["Alice a2.txt"]),
        ("a1.txt", &["0 first"]),
        ("a2.txt", &["0 second"]),
    ]);
    let (res, transcript, _) = performed(&shelf, false);
    assert_eq!(res, Ok(()));
    let headings = transcript.iter().filter(|c| **c == Cue::Speaker("Alice".to_string())).count();
    assert_eq!(headings, 2);
    assert_eq!(transcript.iter().filter(|c| matches!(c, Cue::Enter(_))).count(), 1);
    assert_eq!(transcript.iter().filter(|c| matches!(c, Cue::Exit(_))).count(), 1);
}

#[test]
fn one_scene_one_character_round_trip() {
    let shelf = shelf_of(&[
        ("script.txt", &["[scene] Hello", "cast.txt"]),
        ("cast.txt", &["Alice alice.txt"]),
        ("alice.txt", &["0 Hi", "1 Bye"]),
    ]);
    let (res, transcript, warnings) = performed(&shelf, true);
    assert_eq!(res, Ok(()));
    assert_eq!(
        transcript,
        vec![
            Cue::OpeningTitle("Hello".to_string()),
            Cue::Enter("Alice".to_string()),
            Cue::Blank,
            Cue::Speaker("Alice".to_string()),
            Cue::Line("Hi".to_string()),
            Cue::Line("Bye".to_string()),
            Cue::Exit("Alice".to_string()),
        ]
    );
    assert!(warnings.is_empty());
}

#[test]
fn same_files_give_the_same_transcript() {
    let (first_res, first, first_warnings) = performed(&two_scene_shelf(), true);
    let (second_res, second, second_warnings) = performed(&two_scene_shelf(), true);
    assert_eq!(first_res, second_res);
    assert_eq!(first, second);
    assert_eq!(first_warnings, second_warnings);
    let mut reordered = Shelf::new();
    let in_order = two_scene_shelf();
    for (path, content) in in_order.files.iter().rev() {
        reordered.put(path.clone(), content.clone().unwrap());
    }
    let (third_res, third, third_warnings) = performed(&reordered, true);
    assert_eq!(first_res, third_res);
    assert_eq!(first, third);
    assert_eq!(first_warnings, third_warnings);
}

#[test]
fn diagnostics_do_not_change_the_transcript() {
    let (loud_res, loud, loud_warnings) = performed(&two_scene_shelf(), true);
    let (quiet_res, quiet, quiet_warnings) = performed(&two_scene_shelf(), false);
    assert_eq!(loud_res, quiet_res);
    assert_eq!(loud, quiet);
    assert!(!loud_warnings.is_empty());
    assert!(quiet_warnings.is_empty());
}

#[test]
fn empty_script_fails_without_output() {
    let shelf = shelf_of(&[("script.txt", &[])]);
    let (res, transcript, _) = performed(&shelf, true);
    assert_eq!(res, Err(LoadError::Empty("script.txt".to_string())));
    assert_eq!(res.unwrap_err().code(), 2);
    assert!(transcript.is_empty());
}

#[test]
fn missing_script_is_asked_for() {
    let (res, transcript, _) = performed(&Shelf::new(), true);
    assert_eq!(res, Err(LoadError::Missing("script.txt".to_string())));
    assert!(transcript.is_empty());
}

#[test]
fn unreadable_script_fails() {
    let mut shelf = Shelf::new();
    shelf.put_unreadable("script.txt".to_string());
    let (res, _, _) = performed(&shelf, true);
    assert_eq!(res, Err(LoadError::Unreadable("script.txt".to_string())));
}

#[test]
fn script_of_titles_only_has_no_fragments() {
    let shelf = shelf_of(&[("script.txt", &["[scene] One", "[scene] Two"])]);
    let (res, transcript, _) = performed(&shelf, false);
    assert_eq!(res, Err(LoadError::NoFragments));
    assert!(transcript.is_empty());
}

#[test]
fn first_fragment_needs_a_title() {
    let shelf = shelf_of(&[
        ("script.txt", &["cast.txt", "[scene] Too late", "cast.txt"]),
        ("cast.txt", &["Alice alice.txt"]),
        ("alice.txt", &["0 Hi"]),
    ]);
    let (res, transcript, _) = performed(&shelf, false);
    assert_eq!(res, Err(LoadError::UntitledOpening));
    assert!(transcript.is_empty());
}

#[test]
fn failed_load_leaves_the_play_as_it_was() {
    let shelf = shelf_of(&[
        ("script.txt", &["[scene] One", "one.txt", "two.txt"]),
        ("one.txt", &["Alice alice.txt"]),
        ("alice.txt", &["0 Hi"]),
    ]);
    let mut play = Play::new();
    let mut diag = Diagnostics::new(true);
    let res = play.prepare(&"script.txt".to_string(), &shelf, &mut diag);
    assert_eq!(res, Err(LoadError::Missing("two.txt".to_string())));
    assert!(play.fragments().is_empty());
}

#[test]
fn files_are_asked_for_in_reading_order() {
    let files: Vec<(&str, Vec<&str>)> = vec![
        ("script.txt", vec!["[scene] One", "one.txt", "two.txt"]),
        ("one.txt", vec!["Alice a1.txt", "Bob b1.txt"]),
        ("a1.txt", vec!["0 Hi"]),
        ("b1.txt", vec!["1 Ho"]),
        ("two.txt", vec!["Bob b2.txt"]),
        ("b2.txt", vec!["2 Hum"]),
    ];
    let mut shelf = Shelf::new();
    let mut asked: Vec<String> = Vec::new();
    loop {
        let (res, _, _) = performed(&shelf, false);
        match res {
            Err(LoadError::Missing(path)) => {
                let lines = files.iter().find(|f| f.0 == path).unwrap().1.clone();
                shelf.put(path.clone(), strings(&lines));
                asked.push(path);
            }
            other => {
                assert_eq!(other, Ok(()));
                break;
            }
        }
    }
    assert_eq!(asked, vec!["script.txt", "one.txt", "a1.txt", "b1.txt", "two.txt", "b2.txt"]);
}

#[test]
fn process_config_adds_fragments_to_the_play() {
    let shelf = shelf_of(&[("cast.txt", &["Alice alice.txt"]), ("alice.txt", &["0 Hi"])]);
    let config: ScriptConfig = vec![
        ScriptDirective::FragmentConfigRef("cast.txt".to_string()),
        ScriptDirective::Title("Late title".to_string()),
        ScriptDirective::FragmentConfigRef("cast.txt".to_string()),
        ScriptDirective::FragmentConfigRef("cast.txt".to_string()),
    ];
    let mut play = Play::new();
    let mut diag = Diagnostics::new(false);
    assert_eq!(play.process_config(&config, &shelf, &mut diag), Ok(()));
    let titles: Vec<&str> = play.fragments().iter().map(|f| f.scene_title.as_str()).collect();
    assert_eq!(titles, vec!["", "Late title", ""]);
}

#[test]
fn arguments_name_the_script_and_the_diagnostics_word() {
    let mut script = String::new();
    assert_eq!(parse_args(&strings(&["prog", "play.txt"]), &mut script), Ok(false));
    assert_eq!(script, "play.txt");
    assert_eq!(parse_args(&strings(&["prog", "other.txt", "whinge"]), &mut script), Ok(true));
    assert_eq!(script, "other.txt");
}

#[test]
fn wrong_arguments_are_refused() {
    let mut script = "kept".to_string();
    assert_eq!(parse_args(&strings(&[]), &mut script), Err(1));
    assert_eq!(parse_args(&strings(&["prog"]), &mut script), Err(1));
    assert_eq!(parse_args(&strings(&["prog", "play.txt", "loud"]), &mut script), Err(1));
    assert_eq!(parse_args(&strings(&["prog", "play.txt", "whinge", "more"]), &mut script), Err(1));
    assert_eq!(script, "kept");
}

#[test]
fn usage_names_the_program() {
    assert_eq!(
        usage("lab2"),
        "Wrong command line arguments. Correct usage: lab2 <script_file_name> [whinge]\n"
    );
}

#[test]
fn return_wrapper_holds_the_exit_code() {
    assert_eq!(ReturnWrapper::new(0).field_type, 0);
    assert!(!ReturnWrapper::new(0).is_error());
    assert_eq!(ReturnWrapper::new(2).field_type, 2);
    assert!(ReturnWrapper::new(2).is_error());
    assert!(ReturnWrapper::new(1).is_error());
}
