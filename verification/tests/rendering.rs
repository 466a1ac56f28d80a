use playscript::cue::{lay_out, transcript_lines, Cue};
use playscript::diagnostics::Warning;

#[test]
fn cues_print_as_lines_of_the_transcript() {
    assert_eq!(Cue::OpeningTitle("The Castle".to_string()).text(), "\"The Castle\"!");
    assert_eq!(Cue::Title("The Heath".to_string()).text(), "\"The Heath\"");
    assert_eq!(Cue::Enter("Alice".to_string()).text(), "[Enter \"Alice\".]");
    assert_eq!(Cue::Exit("Bob".to_string()).text(), "[Exit \"Bob\".]");
    assert_eq!(Cue::Blank.text(), "");
    assert_eq!(Cue::Speaker("Alice".to_string()).text(), "Speaker: Alice");
    assert_eq!(Cue::Line("Hi".to_string()).text(), "\"Hi\"");
}

#[test]
fn quoted_text_is_escaped() {
    assert_eq!(Cue::Line("say \"hi\"\tnow\\".to_string()).text(), "\"say \\\"hi\\\"\\tnow\\\\\"");
    assert_eq!(Cue::Line(String::new()).text(), "\"\"");
    let text = "caf\u{e9} \u{7f}".to_string();
    assert_eq!(Cue::Line(text.clone()).text(), format!("{:?}", text));
}

#[test]
fn lay_out_frames_the_quoted_text() {
    let name = "Alice".to_string();
    assert_eq!(lay_out(&Cue::OpeningTitle(name.clone()), "<q>"), "<q>!");
    assert_eq!(lay_out(&Cue::Title(name.clone()), "<q>"), "<q>");
    assert_eq!(lay_out(&Cue::Enter(name.clone()), "<q>"), "[Enter <q>.]");
    assert_eq!(lay_out(&Cue::Exit(name.clone()), "<q>"), "[Exit <q>.]");
    assert_eq!(lay_out(&Cue::Blank, "<q>"), "");
    assert_eq!(lay_out(&Cue::Speaker(name.clone()), "<q>"), "Speaker: Alice");
    assert_eq!(lay_out(&Cue::Line(name), "<q>"), "<q>");
}

#[test]
fn transcript_prints_one_line_for_each_cue() {
    let transcript = vec![
        Cue::OpeningTitle("Hello".to_string()),
        Cue::Enter("Alice".to_string()),
        Cue::Blank,
        Cue::Speaker("Alice".to_string()),
        Cue::Line("Hi".to_string()),
        Cue::Line("Bye".to_string()),
        Cue::Exit("Alice".to_string()),
    ];
    assert_eq!(
        transcript_lines(&transcript),
        vec![
            "\"Hello\"!",
            "[Enter \"Alice\".]",
            "",
            "Speaker: Alice",
            "\"Hi\"",
            "\"Bye\"",
            "[Exit \"Alice\".]",
        ]
    );
    assert!(transcript_lines(&Vec::new()).is_empty());
}

#[test]
fn warnings_print_as_lines() {
    assert_eq!(
        Warning::MalformedLine("abc some text".to_string()).text(),
        "Whinge Warning: the first token of the passed in line 'abc some text' does not represent a valid usize value!"
    );
    assert_eq!(Warning::MissingTitle.text(), "Whinge Warning: [scene] directive missing title");
    assert_eq!(
        Warning::ExtraScriptTokens("cast.txt".to_string()).text(),
        "Whinge Warning: there are additional tokens after config file name 'cast.txt'"
    );
    assert_eq!(
        Warning::ExtraCastTokens.text(),
        "Error: expecting config line to have 2 items but got more than 2 items, pushing first 2 elements"
    );
    assert_eq!(
        Warning::ShortCastLine.text(),
        "Error: expecting config line to have 2 items but got less than 2 items. Not pushing anything"
    );
    assert_eq!(
        Warning::DuplicateLine(120).text(),
        "WHINGE Warning: duplicate line detected for line number: 120"
    );
    assert_eq!(
        Warning::FirstLineNotZero.text(),
        "WHINGE Warning: line number should start at 0!"
    );
}
