//! A cast member: a character's name, its dialogue in line-number order, and
//! the cursor that recitation moves through the dialogue.

use crate::cue::{emit, Cue, CueView};
use crate::diagnostics::{heard, Diagnostics, Warning, WarningView};
use crate::order::{ascending, lemma_stable_sort_ascends, lemma_stable_sort_exists,
    lemma_stable_sort_maps, lemma_stable_sorted_is, rank_of, stable_sort, stable_sorted, Ranked};
use crate::shelf::{read, LoadError, Shelf};
use crate::text::{leading_token, number_of, parse_number, remainder, split_leading};
use std::cmp::Ordering;
use vstd::prelude::*;
use vstd::std_specs::cmp::{PartialEqSpecImpl, PartialOrdSpecImpl};

verus! {

/// The dialogue of one character: line number and text of each line.
pub type PlayLines = Vec<(usize, String)>;

/// A character of one scene fragment.
#[derive(Debug)]
pub struct Player {
    /// The character's name.
    pub char_name: String,
    /// The character's lines, each with its line number.
    pub char_lines: PlayLines,
    /// The place in `char_lines` of the next line to speak.
    pub cur_entry_idx: usize,
}

/// A `Player` with its texts as sequences of characters.
pub struct PlayerView {
    pub name: Seq<char>,
    pub lines: Seq<(usize, Seq<char>)>,
    pub cursor: usize,
}

impl View for Player {
    type V = PlayerView;

    open spec fn view(&self) -> PlayerView {
        PlayerView {
            name: self.char_name@,
            lines: self.char_lines.deep_view(),
            cursor: self.cur_entry_idx,
        }
    }
}

impl DeepView for Player {
    type V = PlayerView;

    open spec fn deep_view(&self) -> PlayerView {
        self@
    }
}

impl Ranked for (usize, String) {
    open spec fn rank(&self) -> int {
        self.0 as int
    }

    fn outranks(&self, other: &Self) -> (b: bool) {
        self.0 > other.0
    }
}

/// The line number of a dialogue line, as a key to sort by.
pub open spec fn line_number() -> spec_fn((usize, Seq<char>)) -> int {
    |l: (usize, Seq<char>)| l.0 as int
}

/// What a dialogue line gives: line number and text, where the leading token
/// is a line number; nothing otherwise.
pub open spec fn dialogue_entry(line: Seq<char>) -> Option<(usize, Seq<char>)> {
    match number_of(leading_token(line)) {
        Some(n) => Some((n, remainder(line))),
        None => None,
    }
}

/// The warning that a dialogue line raises: a line that is not empty and
/// whose leading token is no line number is malformed.
pub open spec fn dialogue_complaint(line: Seq<char>) -> Option<WarningView> {
    if line.len() > 0 && number_of(leading_token(line)) is None {
        Some(WarningView::MalformedLine(line))
    } else {
        None
    }
}

/// The dialogue that the lines of a dialogue file give, in file order.
pub open spec fn parsed_dialogue(lines: Seq<Seq<char>>) -> Seq<(usize, Seq<char>)> {
    lines.filter_map(|l: Seq<char>| dialogue_entry(l))
}

/// The warnings that the lines of a dialogue file raise, in file order.
pub open spec fn dialogue_warnings(lines: Seq<Seq<char>>) -> Seq<WarningView> {
    lines.filter_map(|l: Seq<char>| dialogue_complaint(l))
}

/// The lines of a dialogue file whose leading token is a line number.
pub open spec fn numbered_lines(lines: Seq<Seq<char>>) -> Seq<Seq<char>> {
    lines.filter(|l: Seq<char>| number_of(leading_token(l)) is Some)
}

/// A player after the lines of a dialogue file were added to its dialogue
/// and the whole was sorted stably by line number.
pub open spec fn with_dialogue(before: PlayerView, lines: Seq<Seq<char>>) -> PlayerView {
    PlayerView {
        lines: stable_sorted(before.lines + parsed_dialogue(lines), line_number()),
        ..before
    }
}

/// A player of the given name before any dialogue is loaded.
pub open spec fn fresh_player(name: Seq<char>) -> PlayerView {
    PlayerView { name, lines: Seq::empty(), cursor: 0 }
}

/// After a dialogue file is loaded, the dialogue ascends by line number as
/// far as the new lines reach, and it has grown by one entry for each line
/// of the file whose leading token is a line number. For a fresh player the
/// whole dialogue ascends, and its length is the count of those lines.
pub proof fn lemma_loaded_dialogue(before: PlayerView, lines: Seq<Seq<char>>)
    ensures
        with_dialogue(before, lines).in_order(),
        with_dialogue(before, lines).lines.len() == before.lines.len() + numbered_lines(
            lines,
        ).len(),
        with_dialogue(fresh_player(before.name), lines).lines.len() == numbered_lines(lines).len(),
{
    let unsorted = before.lines + parsed_dialogue(lines);
    lemma_stable_sort_exists(unsorted, line_number());
    lemma_stable_sort_ascends(stable_sorted(unsorted, line_number()), unsorted, line_number());
    let fresh = Seq::<(usize, Seq<char>)>::empty() + parsed_dialogue(lines);
    lemma_stable_sort_exists(fresh, line_number());
    lemma_stable_sort_ascends(stable_sorted(fresh, line_number()), fresh, line_number());
    lemma_parsed_dialogue_len(lines);
}

/// The dialogue of a file has one entry for each line whose leading token is
/// a line number.
pub proof fn lemma_parsed_dialogue_len(lines: Seq<Seq<char>>)
    ensures
        parsed_dialogue(lines).len() == numbered_lines(lines).len(),
    decreases lines.len(),
{
    reveal(Seq::filter);
    if lines.len() > 0 {
        lemma_parsed_dialogue_len(lines.drop_last());
    }
}

impl PlayerView {
    /// Whether the dialogue ascends by line number.
    pub open spec fn in_order(self) -> bool {
        ascending(self.lines, line_number())
    }

    /// Whether a line is left to speak.
    pub open spec fn has_next(self) -> bool {
        self.cursor < self.lines.len()
    }

    /// The player with its cursor moved on by one line.
    pub open spec fn advanced(self) -> PlayerView {
        PlayerView { cursor: (self.cursor + 1) as usize, ..self }
    }

    /// What speaking the next line adds to a transcript whose last speaker
    /// was `recent`: a blank line and the speaker's heading where the
    /// speaker changes, then the line's text.
    pub open spec fn utterance(self, recent: Seq<char>) -> Seq<CueView> {
        let line = seq![CueView::Line(self.lines[self.cursor as int].1)];
        if recent != self.name {
            seq![CueView::Blank, CueView::Speaker(self.name)] + line
        } else {
            line
        }
    }
}

impl Player {
    /// A player of the given name, with no dialogue yet.
    pub fn new(char_name: &String) -> (p: Self)
        ensures
            p@ == (PlayerView { name: char_name@, lines: Seq::empty(), cursor: 0 }),
    {
        let p = Player { char_name: char_name.clone(), char_lines: Vec::new(), cur_entry_idx: 0 };
        assert(p.char_lines.deep_view() =~= Seq::empty());
        p
    }

    /// Reads one line of a dialogue file: a line whose leading token is a
    /// line number adds that number and the trimmed remainder to the
    /// dialogue; an empty line is passed over; any other line is malformed
    /// and raises a warning.
    pub fn add_script_line(&mut self, unparsed_line: &String, diag: &mut Diagnostics)
        ensures
            final(self)@ == (PlayerView {
                lines: old(self)@.lines + match dialogue_entry(unparsed_line@) {
                    Some(entry) => seq![entry],
                    None => Seq::empty(),
                },
                ..old(self)@
            }),
            final(diag).follows(
                old(diag),
                match dialogue_complaint(unparsed_line@) {
                    Some(w) => seq![w],
                    None => Seq::empty(),
                },
            ),
    {
        let ghost lines_before = self.char_lines.deep_view();
        let ghost log_before = diag.log();
        if unparsed_line.as_str().unicode_len() > 0 {
            let (first_token, line_extract) = split_leading(unparsed_line.as_str());
            match parse_number(first_token.as_str()) {
                Some(line_num) => {
                    self.char_lines.push((line_num, line_extract));
                    proof {
                        assert(self.char_lines.deep_view() =~= lines_before + seq![
                            (line_num, remainder(unparsed_line@)),
                        ]);
                        assert(diag.log() =~= log_before + heard(diag.whinge, Seq::empty()));
                    }
                },
                None => {
                    diag.warn(Warning::MalformedLine(unparsed_line.clone()));
                    proof {
                        assert(self.char_lines.deep_view() =~= lines_before + Seq::empty());
                    }
                },
            }
        } else {
            proof {
                assert(self.char_lines.deep_view() =~= lines_before + Seq::empty());
                assert(diag.log() =~= log_before + heard(diag.whinge, Seq::empty()));
            }
        }
    }

    /// Loads the dialogue file at `part_name` from the shelf: every line of
    /// it is read as `add_script_line` does, then the dialogue is sorted
    /// stably by line number. Where the shelf gives no lines for the path,
    /// the player and the diagnostics stay as they were.
    pub fn prepare(&mut self, part_name: &String, shelf: &Shelf, diag: &mut Diagnostics) -> (res:
        Result<(), LoadError>)
        ensures
            match read(shelf@, part_name@) {
                Ok(lines) => {
                    &&& res is Ok
                    &&& final(self)@ == with_dialogue(old(self)@, lines)
                    &&& final(self)@.in_order()
                    &&& final(self)@.lines.len() == old(self)@.lines.len() + numbered_lines(
                        lines,
                    ).len()
                    &&& final(diag).follows(old(diag), dialogue_warnings(lines))
                },
                Err(e) => {
                    &&& res is Err
                    &&& res->Err_0@ == e
                    &&& final(self)@ == old(self)@
                    &&& final(diag).follows(old(diag), Seq::empty())
                },
            },
    {
        let ghost log_before = diag.log();
        let ghost lines_before = self.char_lines.deep_view();
        let cur_file_line_vec = match shelf.lines(part_name) {
            Ok(lines) => lines,
            Err(e) => {
                proof {
                    assert(diag.log() =~= log_before + heard(diag.whinge, Seq::empty()));
                }
                return Err(e);
            },
        };
        let ghost lines = cur_file_line_vec.deep_view();
        let mut i: usize = 0;
        proof {
            assert(lines.take(0) =~= Seq::empty());
            assert(self.char_lines.deep_view() =~= lines_before + parsed_dialogue(lines.take(0)));
            assert(diag.log() =~= log_before + heard(diag.whinge, dialogue_warnings(lines.take(0))));
        }
        while i < cur_file_line_vec.len()
            invariant
                i <= cur_file_line_vec.len(),
                lines == cur_file_line_vec.deep_view(),
                self.char_name@ == old(self).char_name@,
                self.cur_entry_idx == old(self).cur_entry_idx,
                self.char_lines.deep_view() == lines_before + parsed_dialogue(lines.take(i as int)),
                diag.whinge == old(diag).whinge,
                diag.log() == log_before + heard(
                    diag.whinge,
                    dialogue_warnings(lines.take(i as int)),
                ),
            decreases cur_file_line_vec.len() - i,
        {
            proof {
                lines.lemma_filter_map_take_succ(|l: Seq<char>| dialogue_entry(l), i as int);
                lines.lemma_filter_map_take_succ(|l: Seq<char>| dialogue_complaint(l), i as int);
                assert(lines[i as int] == cur_file_line_vec[i as int]@);
            }
            self.add_script_line(&cur_file_line_vec[i], diag);
            proof {
                assert(self.char_lines.deep_view() =~= lines_before + parsed_dialogue(
                    lines.take(i + 1),
                ));
                assert(diag.log() =~= log_before + heard(
                    diag.whinge,
                    dialogue_warnings(lines.take(i + 1)),
                ));
            }
            i += 1;
        }
        let ghost unsorted = self.char_lines@;
        stable_sort(&mut self.char_lines);
        proof {
            assert(lines.take(lines.len() as int) =~= lines);
            let f = |l: (usize, String)| l.deep_view();
            assert(unsorted.map_values(f) =~= lines_before + parsed_dialogue(lines));
            assert(self.char_lines@.map_values(f) =~= self.char_lines.deep_view());
            lemma_stable_sort_maps(
                self.char_lines@,
                unsorted,
                rank_of::<(usize, String)>(),
                f,
                line_number(),
            );
            lemma_stable_sorted_is(
                self.char_lines.deep_view(),
                lines_before + parsed_dialogue(lines),
                line_number(),
            );
            lemma_stable_sort_ascends(
                self.char_lines.deep_view(),
                lines_before + parsed_dialogue(lines),
                line_number(),
            );
            lemma_parsed_dialogue_len(lines);
        }
        Ok(())
    }

    /// Speaks the next line, if one is left: adds it to the transcript,
    /// under a heading where the speaker is not `most_recent_speaker`, makes
    /// this player the most recent speaker and moves the cursor on. With no
    /// line left, nothing changes.
    pub fn speak(&mut self, most_recent_speaker: &mut String, transcript: &mut Vec<Cue>)
        ensures
            old(self)@.has_next() ==> {
                &&& final(self)@ == old(self)@.advanced()
                &&& final(most_recent_speaker)@ == old(self)@.name
                &&& final(transcript).deep_view() == old(transcript).deep_view() + old(
                    self,
                )@.utterance(old(most_recent_speaker)@)
            },
            !old(self)@.has_next() ==> {
                &&& final(self)@ == old(self)@
                &&& final(most_recent_speaker)@ == old(most_recent_speaker)@
                &&& final(transcript).deep_view() == old(transcript).deep_view()
            },
    {
        if self.cur_entry_idx < self.char_lines.len() {
            let ghost before = transcript.deep_view();
            if *most_recent_speaker != self.char_name {
                *most_recent_speaker = self.char_name.clone();
                emit(transcript, Cue::Blank);
                emit(transcript, Cue::Speaker(self.char_name.clone()));
            }
            emit(transcript, Cue::Line(self.char_lines[self.cur_entry_idx].1.clone()));
            proof {
                assert(self.char_lines.deep_view()[self.cur_entry_idx as int]
                    == self.char_lines[self.cur_entry_idx as int].deep_view());
                assert(transcript.deep_view() =~= before + old(self)@.utterance(
                    old(most_recent_speaker)@,
                ));
            }
            self.cur_entry_idx += 1;
        }
    }

    /// Whether a line is left whose number is no greater than `target`.
    pub fn is_due(&self, target: usize) -> (b: bool)
        ensures
            b == (self@.has_next() && self@.lines[self@.cursor as int].0 <= target),
    {
        match self.next_line() {
            Some(line_num) => line_num <= target,
            None => false,
        }
    }

    /// The line number of the next line to speak, if one is left.
    pub fn next_line(&self) -> (r: Option<usize>)
        ensures
            r == if self@.has_next() {
                Some(self@.lines[self@.cursor as int].0)
            } else {
                None
            },
    {
        if self.cur_entry_idx < self.char_lines.len() {
            proof {
                assert(self.char_lines.deep_view()[self.cur_entry_idx as int]
                    == self.char_lines[self.cur_entry_idx as int].deep_view());
            }
            return Some(self.char_lines[self.cur_entry_idx].0)
        } else {
            return None
        }
    }
}

impl Ranked for Player {
    /// A player ranks by the number of its first line; one without lines
    /// ranks before all that have some.
    open spec fn rank(&self) -> int {
        if self.char_lines.len() == 0 {
            -1
        } else {
            self.char_lines[0].0 as int
        }
    }

    fn outranks(&self, other: &Self) -> (b: bool) {
        if self.char_lines.len() == 0 {
            false
        } else if other.char_lines.len() == 0 {
            true
        } else {
            self.char_lines[0].0 > other.char_lines[0].0
        }
    }
}

/// How rank `a` stands to rank `b`.
pub open spec fn rank_order(a: int, b: int) -> Ordering {
    if a < b {
        Ordering::Less
    } else if a > b {
        Ordering::Greater
    } else {
        Ordering::Equal
    }
}

impl Player {
    /// How this player stands to `other` in a cast: by rank.
    pub fn cmp(&self, other: &Self) -> (r: Ordering)
        ensures
            r == rank_order(self.rank(), other.rank()),
    {
        if self.char_lines.len() == 0 {
            if other.char_lines.len() == 0 {
                Ordering::Equal
            } else {
                Ordering::Less
            }
        } else if other.char_lines.len() == 0 {
            Ordering::Greater
        } else if self.char_lines[0].0 < other.char_lines[0].0 {
            Ordering::Less
        } else if self.char_lines[0].0 > other.char_lines[0].0 {
            Ordering::Greater
        } else {
            Ordering::Equal
        }
    }
}

impl PartialEq for Player {
    /// Two players are equal as cast members where their ranks are.
    fn eq(&self, other: &Self) -> (r: bool) {
        if self.char_lines.len() == 0 && other.char_lines.len() == 0 {
            true
        } else if self.char_lines.len() != 0 && other.char_lines.len() != 0 {
            self.char_lines[0].0 == other.char_lines[0].0
        } else {
            false
        }
    }
}

impl PartialEqSpecImpl for Player {
    open spec fn obeys_eq_spec() -> bool {
        true
    }

    open spec fn eq_spec(&self, other: &Self) -> bool {
        self.rank() == other.rank()
    }
}

impl Eq for Player {

}

impl PartialOrd for Player {
    fn partial_cmp(&self, other: &Self) -> (r: Option<Ordering>) {
        Some(self.cmp(other))
    }
}

impl PartialOrdSpecImpl for Player {
    open spec fn obeys_partial_cmp_spec() -> bool {
        true
    }

    open spec fn partial_cmp_spec(&self, other: &Self) -> Option<Ordering> {
        Some(rank_order(self.rank(), other.rank()))
    }
}

} // verus!
