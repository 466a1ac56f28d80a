//! The lines of a transcript, as values: what is announced and what is said.

use vstd::prelude::*;

verus! {

/// One line of the transcript.
#[derive(Debug, PartialEq, Eq)]
pub enum Cue {
    /// The title of the scene that opens the play.
    OpeningTitle(String),
    /// The title of a later scene.
    Title(String),
    /// A character comes on.
    Enter(String),
    /// A character leaves.
    Exit(String),
    /// An empty line.
    Blank,
    /// The heading for the lines of the named character.
    Speaker(String),
    /// A line of dialogue.
    Line(String),
}

/// What a `Cue` says, with its text as a sequence of characters.
pub enum CueView {
    OpeningTitle(Seq<char>),
    Title(Seq<char>),
    Enter(Seq<char>),
    Exit(Seq<char>),
    Blank,
    Speaker(Seq<char>),
    Line(Seq<char>),
}

impl View for Cue {
    type V = CueView;

    open spec fn view(&self) -> CueView {
        match self {
            Cue::OpeningTitle(t) => CueView::OpeningTitle(t@),
            Cue::Title(t) => CueView::Title(t@),
            Cue::Enter(n) => CueView::Enter(n@),
            Cue::Exit(n) => CueView::Exit(n@),
            Cue::Blank => CueView::Blank,
            Cue::Speaker(n) => CueView::Speaker(n@),
            Cue::Line(t) => CueView::Line(t@),
        }
    }
}

impl DeepView for Cue {
    type V = CueView;

    open spec fn deep_view(&self) -> CueView {
        self@
    }
}

/// The text that the `Debug` form of a string gives: the string in double
/// quotes, with quotes, backslashes and unprintable characters escaped.
pub uninterp spec fn debug_text(s: Seq<char>) -> Seq<char>;

/// The `Debug` form of `s`, as `format!("{:?}", s)` gives it through
/// `<str as core::fmt::Debug>::fmt`. Taken on trust: that the text depends on
/// the characters of `s` alone.
#[verifier::external_body]
fn quote(s: &str) -> (r: String)
    ensures
        r@ == debug_text(s@),
{
    format!("{:?}", s)
}

/// The line that a cue prints as, given the quoted form of its text: titles
/// and lines of dialogue are quoted, the opening title is marked by `!`,
/// entrances and exits stand in brackets, a speaker's heading bears the
/// bare name.
pub open spec fn laid_out(cue: CueView, quoted: Seq<char>) -> Seq<char> {
    match cue {
        CueView::OpeningTitle(_) => quoted + "!"@,
        CueView::Title(_) => quoted,
        CueView::Enter(_) => "[Enter "@ + quoted + ".]"@,
        CueView::Exit(_) => "[Exit "@ + quoted + ".]"@,
        CueView::Blank => Seq::empty(),
        CueView::Speaker(name) => "Speaker: "@ + name,
        CueView::Line(_) => quoted,
    }
}

/// The line that a cue prints as.
pub open spec fn cue_text(cue: CueView) -> Seq<char> {
    match cue {
        CueView::OpeningTitle(t) => laid_out(cue, debug_text(t)),
        CueView::Title(t) => laid_out(cue, debug_text(t)),
        CueView::Enter(n) => laid_out(cue, debug_text(n)),
        CueView::Exit(n) => laid_out(cue, debug_text(n)),
        CueView::Blank => laid_out(cue, Seq::empty()),
        CueView::Speaker(_) => laid_out(cue, Seq::empty()),
        CueView::Line(t) => laid_out(cue, debug_text(t)),
    }
}

/// The line that `cue` prints as, where `quoted` is the quoted form of its
/// text.
pub fn lay_out(cue: &Cue, quoted: &str) -> (line: String)
    ensures
        line@ == laid_out(cue@, quoted@),
{
    match cue {
        Cue::OpeningTitle(_) => {
            let mut line = String::from_str(quoted);
            line.append("!");
            line
        },
        Cue::Title(_) => String::from_str(quoted),
        Cue::Enter(_) => {
            let mut line = String::from_str("[Enter ");
            line.append(quoted);
            line.append(".]");
            line
        },
        Cue::Exit(_) => {
            let mut line = String::from_str("[Exit ");
            line.append(quoted);
            line.append(".]");
            line
        },
        Cue::Blank => String::new(),
        Cue::Speaker(name) => {
            let mut line = String::from_str("Speaker: ");
            line.append(name.as_str());
            line
        },
        Cue::Line(_) => String::from_str(quoted),
    }
}

impl Cue {
    /// The line that this cue prints as.
    pub fn text(&self) -> (line: String)
        ensures
            line@ == cue_text(self@),
    {
        match self {
            Cue::OpeningTitle(t) => {
                let quoted = quote(t.as_str());
                lay_out(self, quoted.as_str())
            },
            Cue::Title(t) => {
                let quoted = quote(t.as_str());
                lay_out(self, quoted.as_str())
            },
            Cue::Enter(n) => {
                let quoted = quote(n.as_str());
                lay_out(self, quoted.as_str())
            },
            Cue::Exit(n) => {
                let quoted = quote(n.as_str());
                lay_out(self, quoted.as_str())
            },
            Cue::Blank => {
                let line = lay_out(self, "");
                line
            },
            Cue::Speaker(_) => {
                let line = lay_out(self, "");
                line
            },
            Cue::Line(t) => {
                let quoted = quote(t.as_str());
                lay_out(self, quoted.as_str())
            },
        }
    }
}

/// The lines that a transcript prints as.
pub open spec fn transcript_text(cues: Seq<CueView>) -> Seq<Seq<char>> {
    cues.map_values(|c: CueView| cue_text(c))
}

/// The lines that `transcript` prints as, one for each cue.
pub fn transcript_lines(transcript: &Vec<Cue>) -> (lines: Vec<String>)
    ensures
        lines.deep_view() == transcript_text(transcript.deep_view()),
{
    let mut lines: Vec<String> = Vec::new();
    let mut i: usize = 0;
    while i < transcript.len()
        invariant
            i <= transcript.len(),
            lines.len() == i,
            forall|k: int| 0 <= k < i ==> (#[trigger] lines[k])@ == cue_text(transcript[k]@),
        decreases transcript.len() - i,
    {
        lines.push(transcript[i].text());
        i += 1;
    }
    assert(lines.deep_view() =~= transcript_text(transcript.deep_view()));
    lines
}

/// Adds `cue` at the end of `transcript`.
pub fn emit(transcript: &mut Vec<Cue>, cue: Cue)
    ensures
        final(transcript).deep_view() == old(transcript).deep_view().push(cue@),
{
    let ghost before = transcript.deep_view();
    transcript.push(cue);
    assert(transcript.deep_view() =~= before.push(cue@));
}

} // verus!
