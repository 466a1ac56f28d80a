//! A scene fragment: a title, possibly empty, and the cast that speaks in
//! it. A fragment loads its cast from a cast file, announces who enters and
//! who leaves against its neighbours, and recites the dialogue of its cast
//! merged by line number.

use crate::cue::{emit, Cue, CueView};
use crate::diagnostics::{heard, Diagnostics, Warning, WarningView};
use crate::order::{ascending, lemma_stable_sort_ascends, lemma_stable_sort_keeps_ties,
    lemma_stable_sort_maps, lemma_stable_sort_same_items, lemma_stable_sorted_is, rank_of,
    stable_sort, stable_sorted, Ranked};
use crate::player::{dialogue_warnings, fresh_player, with_dialogue, Player, PlayerView};
use crate::recital::{all_numbers, all_spoken, behind, called, calls_no_later, cast_in_order, due,
    duplicate_warnings, has_call, is_call_sheet, is_running_order, last_speaker,
    lemma_next_call, lemma_recital_done, lemma_running_order_is, lemma_speak_step, line_numbers,
    progress, recital_warnings, running_order, spoken, Turn};
use crate::shelf::{read, LoadError, LoadErrorView, Loaded, Shelf, ShelfView};
use crate::text::{blank, is_blank, split_whitespace, tokens};
use std::collections::HashSet;
use vstd::prelude::*;

verus! {

/// The entries of a cast file: character name and dialogue file of each.
pub type PlayConfig = Vec<(String, String)>;

/// A part of a scene with a fixed cast.
#[derive(Debug)]
pub struct SceneFragment {
    /// The scene's title where this fragment opens a scene, empty otherwise.
    pub scene_title: String,
    /// The characters that speak in this fragment.
    pub chars_in_play: Vec<Player>,
}

/// A `SceneFragment` with its texts as sequences of characters.
pub struct SceneFragmentView {
    pub title: Seq<char>,
    pub cast: Seq<PlayerView>,
}

impl View for SceneFragment {
    type V = SceneFragmentView;

    open spec fn view(&self) -> SceneFragmentView {
        SceneFragmentView { title: self.scene_title@, cast: self.chars_in_play.deep_view() }
    }
}

impl DeepView for SceneFragment {
    type V = SceneFragmentView;

    open spec fn deep_view(&self) -> SceneFragmentView {
        self@
    }
}

/// What a line of a cast file gives: its first two tokens as character name
/// and dialogue file, where it has two tokens or more.
pub open spec fn cast_entry(line: Seq<char>) -> Option<(Seq<char>, Seq<char>)> {
    let words = tokens(line);
    if words.len() >= 2 {
        Some((words[0], words[1]))
    } else {
        None
    }
}

/// The warning that a line of a cast file raises: none where it has two
/// tokens exactly.
pub open spec fn cast_complaint(line: Seq<char>) -> Option<WarningView> {
    let words = tokens(line);
    if words.len() > 2 {
        Some(WarningView::ExtraCastTokens)
    } else if words.len() < 2 {
        Some(WarningView::ShortCastLine)
    } else {
        None
    }
}

/// The entries that the lines of a cast file give, in file order.
pub open spec fn parsed_cast(lines: Seq<Seq<char>>) -> Seq<(Seq<char>, Seq<char>)> {
    lines.filter_map(|l: Seq<char>| cast_entry(l))
}

/// The warnings that the lines of a cast file raise, in file order.
pub open spec fn cast_warnings(lines: Seq<Seq<char>>) -> Seq<WarningView> {
    lines.filter_map(|l: Seq<char>| cast_complaint(l))
}

/// The rank of a player in a cast: the number of its first line; a player
/// without lines ranks before all that have some.
pub open spec fn first_line() -> spec_fn(PlayerView) -> int {
    |p: PlayerView|
        if p.lines.len() == 0 {
            -1
        } else {
            p.lines[0].0 as int
        }
}

/// The players that the entries of a cast file give, each with the dialogue
/// of its file, in the order of the entries. The first file that cannot be
/// had ends the load with its error.
pub open spec fn loaded_cast(entries: Seq<(Seq<char>, Seq<char>)>, shelf: ShelfView) -> Loaded<
    Seq<PlayerView>,
>
    decreases entries.len(),
{
    if entries.len() == 0 {
        Loaded { result: Ok(Seq::empty()), raised: Seq::empty() }
    } else {
        let before = loaded_cast(entries.drop_last(), shelf);
        match before.result {
            Err(_) => before,
            Ok(cast) => match read(shelf, entries.last().1) {
                Err(e) => Loaded { result: Err(e), raised: before.raised },
                Ok(lines) => Loaded {
                    result: Ok(cast.push(with_dialogue(fresh_player(entries.last().0), lines))),
                    raised: before.raised + dialogue_warnings(lines),
                },
            },
        }
    }
}

/// A fragment after the cast file at `path` was loaded into it: its cast is
/// what it was, followed by the players of the file, sorted stably by first
/// line number. A cast file that cannot be had or gives no entry, and any
/// dialogue file that cannot be had, is an error.
pub open spec fn loaded_fragment(
    before: SceneFragmentView,
    path: Seq<char>,
    shelf: ShelfView,
) -> Loaded<SceneFragmentView> {
    match read(shelf, path) {
        Err(e) => Loaded { result: Err(e), raised: Seq::empty() },
        Ok(lines) => if parsed_cast(lines).len() == 0 {
            Loaded { result: Err(LoadErrorView::Empty(path)), raised: cast_warnings(lines) }
        } else {
            let cast = loaded_cast(parsed_cast(lines), shelf);
            Loaded {
                result: match cast.result {
                    Ok(players) => Ok(
                        SceneFragmentView {
                            cast: stable_sorted(before.cast + players, first_line()),
                            ..before
                        },
                    ),
                    Err(e) => Err(e),
                },
                raised: cast_warnings(lines) + cast.raised,
            }
        },
    }
}

/// Once a file cannot be had, further entries change nothing.
proof fn lemma_loaded_cast_failed(
    entries: Seq<(Seq<char>, Seq<char>)>,
    shelf: ShelfView,
    k: int,
)
    requires
        0 <= k <= entries.len(),
        loaded_cast(entries.take(k), shelf).result is Err,
    ensures
        loaded_cast(entries, shelf) == loaded_cast(entries.take(k), shelf),
    decreases entries.len() - k,
{
    if k == entries.len() {
        assert(entries.take(k) =~= entries);
    } else {
        assert(entries.drop_last().take(k) =~= entries.take(k));
        lemma_loaded_cast_failed(entries.drop_last(), shelf, k);
    }
}

impl Ranked for (usize, usize) {
    open spec fn rank(&self) -> int {
        self.0 as int
    }

    fn outranks(&self, other: &Self) -> (b: bool) {
        self.0 > other.0
    }
}

/// The line numbers that the calls of a sheet ask for.
pub open spec fn numbers_called(sheet: Seq<(usize, usize)>) -> Seq<usize> {
    sheet.map_values(|e: (usize, usize)| e.0)
}

/// The member that a call asks for, as a key.
pub open spec fn member_called() -> spec_fn((usize, usize)) -> int {
    |e: (usize, usize)| e.1 as int
}

/// The title cue of a fragment: none where the title is blank.
pub open spec fn title_cue(title: Seq<char>, opening: bool) -> Seq<CueView> {
    if blank(title) {
        Seq::empty()
    } else if opening {
        seq![CueView::OpeningTitle(title)]
    } else {
        seq![CueView::Title(title)]
    }
}

/// The names of a cast, in cast order.
pub open spec fn names(cast: Seq<PlayerView>) -> Seq<Seq<char>> {
    cast.map_values(|p: PlayerView| p.name)
}

/// The entrances of the characters named in `who`, in that order, without
/// those whose name is among `present`.
pub open spec fn enter_cues(who: Seq<Seq<char>>, present: Seq<Seq<char>>) -> Seq<CueView>
    decreases who.len(),
{
    if who.len() == 0 {
        Seq::empty()
    } else {
        enter_cues(who.drop_last(), present) + if present.contains(who.last()) {
            Seq::empty()
        } else {
            seq![CueView::Enter(who.last())]
        }
    }
}

/// The exits of the characters named in `who`, last name first, without
/// those whose name is among `staying`.
pub open spec fn exit_cues(who: Seq<Seq<char>>, staying: Seq<Seq<char>>) -> Seq<CueView>
    decreases who.len(),
{
    if who.len() == 0 {
        Seq::empty()
    } else {
        (if staying.contains(who.last()) {
            Seq::empty()
        } else {
            seq![CueView::Exit(who.last())]
        }) + exit_cues(who.drop_last(), staying)
    }
}

/// An entrance is announced for exactly the names of `who` that are not
/// among `present`.
pub proof fn lemma_enter_cues_contain(who: Seq<Seq<char>>, present: Seq<Seq<char>>, name: Seq<char>)
    ensures
        enter_cues(who, present).contains(CueView::Enter(name)) <==> who.contains(name)
            && !present.contains(name),
    decreases who.len(),
{
    let cue = CueView::Enter(name);
    if who.len() > 0 {
        let rest = who.drop_last();
        lemma_enter_cues_contain(rest, present, name);
        let tail: Seq<CueView> = if present.contains(who.last()) {
            Seq::empty()
        } else {
            seq![CueView::Enter(who.last())]
        };
        assert(enter_cues(who, present) == enter_cues(rest, present) + tail);
        lemma_contains_add(enter_cues(rest, present), tail, cue);
        assert(tail.contains(cue) <==> who.last() == name && !present.contains(name)) by {
            if tail.len() > 0 {
                assert(tail[0] == CueView::Enter(who.last()));
            }
        }
        assert(who =~= rest + seq![who.last()]);
        lemma_contains_add(rest, seq![who.last()], name);
        assert(seq![who.last()].contains(name) <==> who.last() == name) by {
            assert(seq![who.last()][0] == who.last());
        }
    }
}

/// An exit is announced for exactly the names of `who` that are not among
/// `staying`.
pub proof fn lemma_exit_cues_contain(who: Seq<Seq<char>>, staying: Seq<Seq<char>>, name: Seq<char>)
    ensures
        exit_cues(who, staying).contains(CueView::Exit(name)) <==> who.contains(name)
            && !staying.contains(name),
    decreases who.len(),
{
    let cue = CueView::Exit(name);
    if who.len() > 0 {
        let rest = who.drop_last();
        lemma_exit_cues_contain(rest, staying, name);
        let head: Seq<CueView> = if staying.contains(who.last()) {
            Seq::empty()
        } else {
            seq![CueView::Exit(who.last())]
        };
        assert(exit_cues(who, staying) == head + exit_cues(rest, staying));
        lemma_contains_add(head, exit_cues(rest, staying), cue);
        assert(head.contains(cue) <==> who.last() == name && !staying.contains(name)) by {
            if head.len() > 0 {
                assert(head[0] == CueView::Exit(who.last()));
            }
        }
        assert(who =~= rest + seq![who.last()]);
        lemma_contains_add(rest, seq![who.last()], name);
        assert(seq![who.last()].contains(name) <==> who.last() == name) by {
            assert(seq![who.last()][0] == who.last());
        }
    }
}

proof fn lemma_contains_add<T>(a: Seq<T>, b: Seq<T>, x: T)
    ensures
        (a + b).contains(x) <==> a.contains(x) || b.contains(x),
{
    if a.contains(x) {
        let i = choose|i: int| 0 <= i < a.len() && a[i] == x;
        assert((a + b)[i] == x);
    }
    if b.contains(x) {
        let i = choose|i: int| 0 <= i < b.len() && b[i] == x;
        assert((a + b)[a.len() + i] == x);
    }
    if (a + b).contains(x) {
        let i = choose|i: int| 0 <= i < (a + b).len() && (a + b)[i] == x;
        if i < a.len() {
            assert(a[i] == x);
        } else {
            assert(b[i - a.len()] == x);
        }
    }
}

/// For two fragments that follow each other, entrances and exits complement
/// each other: the later fragment announces the entrance of exactly the
/// names that it has and the earlier one lacks, the earlier fragment the
/// exit of exactly the names that it has and the later one lacks. A name
/// that both fragments have is announced by neither.
pub proof fn lemma_enter_exit_complement(
    earlier: SceneFragmentView,
    later: SceneFragmentView,
    name: Seq<char>,
)
    ensures
        later.enter_cues_after(earlier).contains(CueView::Enter(name)) <==> names(
            later.cast,
        ).contains(name) && !names(earlier.cast).contains(name),
        earlier.exit_cues_before(later).contains(CueView::Exit(name)) <==> names(
            earlier.cast,
        ).contains(name) && !names(later.cast).contains(name),
        names(earlier.cast).contains(name) && names(later.cast).contains(name) ==> {
            &&& !later.enter_cues_after(earlier).contains(CueView::Enter(name))
            &&& !earlier.exit_cues_before(later).contains(CueView::Exit(name))
        },
{
    lemma_enter_cues_contain(names(later.cast), names(earlier.cast), name);
    lemma_exit_cues_contain(names(earlier.cast), names(later.cast), name);
}

impl SceneFragmentView {
    /// The entrances that this fragment announces behind `prev`.
    pub open spec fn enter_cues_after(self, prev: SceneFragmentView) -> Seq<CueView> {
        enter_cues(names(self.cast), names(prev.cast))
    }

    /// The exits that this fragment announces before `next`.
    pub open spec fn exit_cues_before(self, next: SceneFragmentView) -> Seq<CueView> {
        exit_cues(names(self.cast), names(next.cast))
    }
}

impl SceneFragment {
    /// A fragment with the given title and no cast yet.
    pub fn new(fragment_title: &String) -> (f: Self)
        ensures
            f@ == (SceneFragmentView { title: fragment_title@, cast: Seq::empty() }),
    {
        let f = SceneFragment { scene_title: fragment_title.clone(), chars_in_play: Vec::new() };
        assert(f.chars_in_play.deep_view() =~= Seq::empty());
        f
    }

    /// Reads one line of a cast file: the first two tokens are taken as
    /// character name and dialogue file. Further tokens are dropped with a
    /// warning; a line with fewer than two tokens is dropped with a warning.
    pub fn add_config(&self, cfg_line: &String, play_cfg: &mut PlayConfig, diag: &mut Diagnostics)
        ensures
            final(play_cfg).deep_view() == old(play_cfg).deep_view() + match cast_entry(cfg_line@) {
                Some(entry) => seq![entry],
                None => Seq::empty(),
            },
            final(diag).follows(
                old(diag),
                match cast_complaint(cfg_line@) {
                    Some(w) => seq![w],
                    None => Seq::empty(),
                },
            ),
    {
        let ghost cfg_before = play_cfg.deep_view();
        let ghost log_before = diag.log();
        let cfg_items = split_whitespace(cfg_line.as_str());
        proof {
            assert(cfg_items.len() > 0 ==> cfg_items.deep_view()[0] == cfg_items[0]@);
            assert(cfg_items.len() > 1 ==> cfg_items.deep_view()[1] == cfg_items[1]@);
        }
        if cfg_items.len() > 2 {
            diag.warn(Warning::ExtraCastTokens);
            play_cfg.push((cfg_items[0].clone(), cfg_items[1].clone()));
            assert(play_cfg.deep_view() =~= cfg_before + seq![(cfg_items[0]@, cfg_items[1]@)]);
        } else if cfg_items.len() < 2 {
            diag.warn(Warning::ShortCastLine);
            assert(play_cfg.deep_view() =~= cfg_before + Seq::empty());
        } else {
            play_cfg.push((cfg_items[0].clone(), cfg_items[1].clone()));
            assert(play_cfg.deep_view() =~= cfg_before + seq![(cfg_items[0]@, cfg_items[1]@)]);
            assert(diag.log() =~= log_before + heard(diag.whinge, Seq::empty()));
        }
    }

    /// Reads the cast file at `cfg_fname` from the shelf and adds its
    /// entries to `play_cfg`. A file that cannot be had, or that gives no
    /// entry, is an error.
    pub fn read_config(
        &mut self,
        cfg_fname: &String,
        shelf: &Shelf,
        play_cfg: &mut PlayConfig,
        diag: &mut Diagnostics,
    ) -> (res: Result<(), LoadError>)
        ensures
            final(self)@ == old(self)@,
            match read(shelf@, cfg_fname@) {
                Ok(lines) => {
                    &&& final(diag).follows(old(diag), cast_warnings(lines))
                    &&& final(play_cfg).deep_view() == old(play_cfg).deep_view() + parsed_cast(
                        lines,
                    )
                    &&& if parsed_cast(lines).len() == 0 {
                        res is Err && res->Err_0@ == LoadErrorView::Empty(cfg_fname@)
                    } else {
                        res is Ok
                    }
                },
                Err(e) => {
                    &&& res is Err
                    &&& res->Err_0@ == e
                    &&& final(play_cfg).deep_view() == old(play_cfg).deep_view()
                    &&& final(diag).follows(old(diag), Seq::empty())
                },
            },
    {
        let ghost cfg_before = play_cfg.deep_view();
        let ghost log_before = diag.log();
        let cfg_lines = match shelf.lines(cfg_fname) {
            Ok(lines) => lines,
            Err(e) => {
                proof {
                    assert(diag.log() =~= log_before + heard(diag.whinge, Seq::empty()));
                }
                return Err(e);
            },
        };
        let ghost lines = cfg_lines.deep_view();
        let start = play_cfg.len();
        let mut i: usize = 0;
        proof {
            assert(lines.take(0) =~= Seq::empty());
            assert(play_cfg.deep_view() =~= cfg_before + parsed_cast(lines.take(0)));
            assert(diag.log() =~= log_before + heard(diag.whinge, cast_warnings(lines.take(0))));
        }
        while i < cfg_lines.len()
            invariant
                i <= cfg_lines.len(),
                lines == cfg_lines.deep_view(),
                start == cfg_before.len(),
                play_cfg.deep_view() == cfg_before + parsed_cast(lines.take(i as int)),
                diag.whinge == old(diag).whinge,
                diag.log() == log_before + heard(diag.whinge, cast_warnings(lines.take(i as int))),
            decreases cfg_lines.len() - i,
        {
            proof {
                lines.lemma_filter_map_take_succ(|l: Seq<char>| cast_entry(l), i as int);
                lines.lemma_filter_map_take_succ(|l: Seq<char>| cast_complaint(l), i as int);
                assert(lines[i as int] == cfg_lines[i as int]@);
            }
            self.add_config(&cfg_lines[i], play_cfg, diag);
            proof {
                assert(play_cfg.deep_view() =~= cfg_before + parsed_cast(lines.take(i + 1)));
                assert(diag.log() =~= log_before + heard(
                    diag.whinge,
                    cast_warnings(lines.take(i + 1)),
                ));
            }
            i += 1;
        }
        proof {
            assert(lines.take(lines.len() as int) =~= lines);
            assert(play_cfg.deep_view().len() == cfg_before.len() + parsed_cast(lines).len());
        }
        if play_cfg.len() == start {
            return Err(LoadError::Empty(cfg_fname.clone()));
        }
        Ok(())
    }

    /// Loads the players that `play_cfg` names, each with the dialogue of
    /// its file, and adds them to the cast. Where a dialogue file cannot be
    /// had, the fragment stays as it was.
    pub fn process_config(&mut self, play_cfg: &PlayConfig, shelf: &Shelf, diag: &mut Diagnostics) -> (res:
        Result<(), LoadError>)
        ensures
            final(diag).follows(old(diag), loaded_cast(play_cfg.deep_view(), shelf@).raised),
            match loaded_cast(play_cfg.deep_view(), shelf@).result {
                Ok(players) => {
                    &&& res is Ok
                    &&& final(self)@ == (SceneFragmentView {
                        cast: old(self)@.cast + players,
                        ..old(self)@
                    })
                    &&& cast_in_order(players)
                },
                Err(e) => {
                    &&& res is Err
                    &&& res->Err_0@ == e
                    &&& final(self)@ == old(self)@
                },
            },
    {
        let ghost entries = play_cfg.deep_view();
        let ghost log_before = diag.log();
        let mut staged: Vec<Player> = Vec::new();
        let mut i: usize = 0;
        proof {
            assert(entries.take(0) =~= Seq::empty());
            assert(staged.deep_view() =~= Seq::empty());
            assert(diag.log() =~= log_before + heard(diag.whinge, Seq::empty()));
        }
        while i < play_cfg.len()
            invariant
                i <= play_cfg.len(),
                entries == play_cfg.deep_view(),
                loaded_cast(entries.take(i as int), shelf@).result == Ok::<
                    Seq<PlayerView>,
                    LoadErrorView,
                >(staged.deep_view()),
                cast_in_order(staged.deep_view()),
                log_before == old(diag).log(),
                diag.whinge == old(diag).whinge,
                diag.log() == log_before + heard(
                    diag.whinge,
                    loaded_cast(entries.take(i as int), shelf@).raised,
                ),
            decreases play_cfg.len() - i,
        {
            let ghost staged_before = staged.deep_view();
            let ghost log_so_far = diag.log();
            proof {
                assert(entries.take(i + 1).drop_last() =~= entries.take(i as int));
                assert(entries.take(i + 1).last() == play_cfg[i as int].deep_view());
            }
            let mut new_player = Player::new(&play_cfg[i].0);
            match new_player.prepare(&play_cfg[i].1, shelf, diag) {
                Ok(()) => {},
                Err(e) => {
                    proof {
                        assert(diag.log() =~= log_so_far);
                        let failed = loaded_cast(entries.take(i + 1), shelf@);
                        assert(failed.result is Err);
                        assert(failed.raised == loaded_cast(entries.take(i as int), shelf@).raised);
                        lemma_loaded_cast_failed(entries, shelf@, i + 1);
                    }
                    return Err(e);
                },
            }
            staged.push(new_player);
            proof {
                assert(staged.deep_view() =~= staged_before.push(new_player@));
                assert(diag.log() =~= log_before + heard(
                    diag.whinge,
                    loaded_cast(entries.take(i + 1), shelf@).raised,
                ));
            }
            i += 1;
        }
        let ghost cast_before = self.chars_in_play.deep_view();
        let ghost players = staged.deep_view();
        self.chars_in_play.append(&mut staged);
        proof {
            assert(entries.take(entries.len() as int) =~= entries);
            assert(self.chars_in_play.deep_view() =~= cast_before + players);
        }
        Ok(())
    }

    /// Loads the cast file at `cfg_fname` and the dialogue files that it
    /// names from the shelf, adds the players to the cast and sorts the cast
    /// stably by first line number. On any failure the fragment stays as it
    /// was.
    pub fn prepare(&mut self, cfg_fname: &String, shelf: &Shelf, diag: &mut Diagnostics) -> (res:
        Result<(), LoadError>)
        ensures
            final(diag).follows(old(diag), loaded_fragment(old(self)@, cfg_fname@, shelf@).raised),
            match loaded_fragment(old(self)@, cfg_fname@, shelf@).result {
                Ok(fragment) => {
                    &&& res is Ok
                    &&& final(self)@ == fragment
                    &&& ascending(fragment.cast, first_line())
                    &&& cast_in_order(old(self)@.cast) ==> cast_in_order(fragment.cast)
                },
                Err(e) => {
                    &&& res is Err
                    &&& res->Err_0@ == e
                    &&& final(self)@ == old(self)@
                },
            },
    {
        let ghost log_before = diag.log();
        let ghost before = self@;
        let mut playcfg_var: PlayConfig = Vec::new();
        assert(playcfg_var.deep_view() =~= Seq::empty());
        match self.read_config(cfg_fname, shelf, &mut playcfg_var, diag) {
            Ok(()) => {},
            Err(e) => {
                return Err(e);
            },
        }
        let ghost lines = read(shelf@, cfg_fname@)->Ok_0;
        assert(playcfg_var.deep_view() =~= parsed_cast(lines));
        match self.process_config(&playcfg_var, shelf, diag) {
            Ok(()) => {},
            Err(e) => {
                proof {
                    assert(diag.log() =~= log_before + heard(
                        diag.whinge,
                        cast_warnings(lines) + loaded_cast(parsed_cast(lines), shelf@).raised,
                    ));
                }
                return Err(e);
            },
        }
        let ghost players = loaded_cast(parsed_cast(lines), shelf@).result->Ok_0;
        let ghost unsorted = self.chars_in_play@;
        stable_sort(&mut self.chars_in_play);
        proof {
            assert(diag.log() =~= log_before + heard(
                diag.whinge,
                cast_warnings(lines) + loaded_cast(parsed_cast(lines), shelf@).raised,
            ));
            let f = |p: Player| p.deep_view();
            assert(unsorted.map_values(f) =~= before.cast + players);
            assert(self.chars_in_play@.map_values(f) =~= self.chars_in_play.deep_view());
            lemma_stable_sort_maps(self.chars_in_play@, unsorted, rank_of::<Player>(), f, first_line());
            let sorted = self.chars_in_play.deep_view();
            lemma_stable_sorted_is(sorted, before.cast + players, first_line());
            lemma_stable_sort_ascends(sorted, before.cast + players, first_line());
            if cast_in_order(before.cast) {
                lemma_stable_sort_same_items(
                    sorted,
                    before.cast + players,
                    first_line(),
                );
                assert forall|i: int| 0 <= i < sorted.len() implies (#[trigger] sorted[i]).in_order() by {
                    assert(sorted.contains(sorted[i]));
                    let k = choose|k: int|
                        0 <= k < (before.cast + players).len() && (before.cast + players)[k]
                            == sorted[i];
                    if k < before.cast.len() {
                        assert(before.cast[k].in_order());
                    } else {
                        assert(players[k - before.cast.len()].in_order());
                    }
                }
            }
        }
        Ok(())
    }

    /// The call sheet of the cast: one call, line number and member, for
    /// each line of each member, sorted stably by line number. Raises the
    /// warnings of a recital on the way.
    fn line_up(&self, diag: &mut Diagnostics) -> (sheet: Vec<(usize, usize)>)
        ensures
            is_call_sheet(self@.cast, sheet@),
            final(diag).follows(old(diag), recital_warnings(self@.cast)),
    {
        broadcast use vstd::std_specs::hash::group_hash_axioms;

        let ghost cast = self@.cast;
        let ghost log_before = diag.log();
        let mut linenum_and_speaker_vec: Vec<(usize, usize)> = Vec::new();
        let mut linenum_set: HashSet<usize> = HashSet::new();
        let count = self.chars_in_play.len();
        let mut player_idx: usize = 0;
        proof {
            assert(cast.take(0) =~= Seq::empty());
            assert(numbers_called(linenum_and_speaker_vec@) =~= Seq::empty());
            assert(diag.log() =~= log_before + heard(diag.whinge, Seq::empty()));
        }
        while player_idx < count
            invariant
                player_idx <= count,
                count == self.chars_in_play.len(),
                cast == self@.cast,
                numbers_called(linenum_and_speaker_vec@) == all_numbers(
                    cast.take(player_idx as int),
                ),
                forall|x: usize|
                    linenum_set@.contains(x) <==> numbers_called(
                        linenum_and_speaker_vec@,
                    ).contains(x),
                diag.whinge == old(diag).whinge,
                diag.log() == log_before + heard(
                    diag.whinge,
                    duplicate_warnings(numbers_called(linenum_and_speaker_vec@)),
                ),
                forall|a: int|
                    0 <= a < linenum_and_speaker_vec.len() ==> (
                    #[trigger] linenum_and_speaker_vec[a]).1 < player_idx,
                ascending(linenum_and_speaker_vec@, member_called()),
                forall|i: int, j: int|
                    0 <= i < player_idx && 0 <= j < cast[i].lines.len() ==> #[trigger] has_call(
                        linenum_and_speaker_vec@,
                        cast[i].lines[j].0,
                        i,
                    ),
            decreases count - player_idx,
        {
            let a_player = &self.chars_in_play[player_idx];
            let ghost member = cast[player_idx as int];
            let ghost before_member = all_numbers(cast.take(player_idx as int));
            let lines = a_player.char_lines.len();
            let mut j: usize = 0;
            proof {
                assert(member == a_player@);
                assert(line_numbers(member).take(0) =~= Seq::empty());
                assert(before_member + line_numbers(member).take(0) =~= before_member);
            }
            while j < lines
                invariant
                    j <= lines,
                    player_idx < count,
                    count == self.chars_in_play.len(),
                    cast == self@.cast,
                    member == cast[player_idx as int],
                    member == a_player@,
                    lines == a_player.char_lines.len(),
                    numbers_called(linenum_and_speaker_vec@) == before_member + line_numbers(
                        member,
                    ).take(j as int),
                    forall|x: usize|
                        linenum_set@.contains(x) <==> numbers_called(
                            linenum_and_speaker_vec@,
                        ).contains(x),
                    diag.whinge == old(diag).whinge,
                    diag.log() == log_before + heard(
                        diag.whinge,
                        duplicate_warnings(numbers_called(linenum_and_speaker_vec@)),
                    ),
                    forall|a: int|
                        0 <= a < linenum_and_speaker_vec.len() ==> (
                        #[trigger] linenum_and_speaker_vec[a]).1 <= player_idx,
                    ascending(linenum_and_speaker_vec@, member_called()),
                    forall|i: int, k: int|
                        (0 <= i < player_idx && 0 <= k < cast[i].lines.len()) || (i == player_idx
                            && 0 <= k < j) ==> #[trigger] has_call(
                            linenum_and_speaker_vec@,
                            cast[i].lines[k].0,
                            i,
                        ),
                decreases lines - j,
            {
                let line_num = a_player.char_lines[j].0;
                let ghost sheet_before = linenum_and_speaker_vec@;
                let ghost numbers_before = numbers_called(sheet_before);
                proof {
                    assert(member.lines[j as int] == a_player.char_lines[j as int].deep_view());
                }
                linenum_and_speaker_vec.push((line_num, player_idx));
                let linenum_insert_status = linenum_set.insert(line_num);
                let ghost numbers_now = numbers_called(linenum_and_speaker_vec@);
                proof {
                    assert(numbers_now =~= numbers_before.push(line_num));
                    assert(numbers_now.drop_last() =~= numbers_before);
                    assert(line_numbers(member).take(j + 1) =~= line_numbers(member).take(
                        j as int,
                    ).push(line_num));
                    assert(numbers_now =~= before_member + line_numbers(member).take(j + 1));
                    assert forall|x: usize| linenum_set@.contains(x) <==> numbers_now.contains(
                        x,
                    ) by {
                        if numbers_before.contains(x) {
                            let a = choose|a: int|
                                0 <= a < numbers_before.len() && numbers_before[a] == x;
                            assert(numbers_now[a] == x);
                        }
                        if x == line_num {
                            assert(numbers_now[numbers_before.len() as int] == x);
                        }
                        if numbers_now.contains(x) {
                            let a = choose|a: int| 0 <= a < numbers_now.len() && numbers_now[a] == x;
                            if a < numbers_before.len() {
                                assert(numbers_before[a] == x);
                            }
                        }
                    }
                    assert forall|i: int, k: int|
                        (0 <= i < player_idx && 0 <= k < cast[i].lines.len()) || (i == player_idx
                            && 0 <= k < j + 1) implies #[trigger] has_call(
                        linenum_and_speaker_vec@,
                        cast[i].lines[k].0,
                        i,
                    ) by {
                        if i == player_idx && k == j {
                            assert(linenum_and_speaker_vec@[sheet_before.len() as int] == (
                                line_num,
                                player_idx,
                            ));
                        } else {
                            assert(has_call(sheet_before, cast[i].lines[k].0, i));
                            let u = choose|u: int|
                                0 <= u < sheet_before.len() && (#[trigger] sheet_before[u]).0
                                    == cast[i].lines[k].0 && sheet_before[u].1 == i;
                            assert(linenum_and_speaker_vec@[u] == sheet_before[u]);
                        }
                    }
                    assert forall|u: int, v: int|
                        0 <= u < v < linenum_and_speaker_vec.len() implies member_called()(
                        #[trigger] linenum_and_speaker_vec@[u],
                    ) <= member_called()(#[trigger] linenum_and_speaker_vec@[v]) by {
                        assert(linenum_and_speaker_vec@[u] == sheet_before[u]);
                        if v < sheet_before.len() {
                            assert(linenum_and_speaker_vec@[v] == sheet_before[v]);
                        }
                    }
                }
                if !linenum_insert_status {
                    diag.warn(Warning::DuplicateLine(line_num));
                    proof {
                        assert(diag.log() =~= log_before + heard(
                            diag.whinge,
                            duplicate_warnings(numbers_now),
                        ));
                    }
                } else {
                    proof {
                        assert(diag.log() =~= log_before + heard(
                            diag.whinge,
                            duplicate_warnings(numbers_now),
                        ));
                    }
                }
                j += 1;
            }
            proof {
                assert(line_numbers(member).take(lines as int) =~= line_numbers(member));
                assert(cast.take(player_idx + 1).drop_last() =~= cast.take(player_idx as int));
                assert(cast.take(player_idx + 1).last() == member);
            }
            player_idx += 1;
        }
        let ghost unsorted = linenum_and_speaker_vec@;
        stable_sort(&mut linenum_and_speaker_vec);
        let ghost sorted = linenum_and_speaker_vec@;
        proof {
            let key = rank_of::<(usize, usize)>();
            assert(cast.take(count as int) =~= cast);
            lemma_stable_sort_ascends(sorted, unsorted, key);
            lemma_stable_sort_same_items(sorted, unsorted, key);
            lemma_stable_sort_keeps_ties(sorted, unsorted, key, member_called());
            assert forall|u: int| 0 <= u < sorted.len() implies (#[trigger] sorted[u]).1
                < cast.len() by {
                assert(sorted.contains(sorted[u]));
                let a = choose|a: int| 0 <= a < unsorted.len() && unsorted[a] == sorted[u];
                assert(unsorted[a].1 < count);
            }
            assert forall|u: int, v: int| 0 <= u < v < sorted.len() implies calls_no_later(
                #[trigger] sorted[u],
                #[trigger] sorted[v],
            ) by {
                assert(key(sorted[u]) <= key(sorted[v]));
                if key(sorted[u]) == key(sorted[v]) {
                    assert(member_called()(sorted[u]) <= member_called()(sorted[v]));
                }
            }
            assert forall|i: int, j: int|
                0 <= i < cast.len() && 0 <= j < cast[i].lines.len() implies #[trigger] has_call(
                sorted,
                cast[i].lines[j].0,
                i,
            ) by {
                assert(has_call(unsorted, cast[i].lines[j].0, i));
                let a = choose|a: int|
                    0 <= a < unsorted.len() && (#[trigger] unsorted[a]).0 == cast[i].lines[j].0
                        && unsorted[a].1 == i;
                assert(unsorted.contains(unsorted[a]));
                let u = choose|u: int| 0 <= u < sorted.len() && sorted[u] == unsorted[a];
                assert(sorted[u].0 == cast[i].lines[j].0);
            }
            // the first call bears the least line number of the cast
            let numbers = all_numbers(cast);
            assert(numbers.len() == sorted.len());
            if sorted.len() > 0 {
                if numbers.contains(0) {
                    let a = choose|a: int| 0 <= a < numbers.len() && numbers[a] == 0;
                    assert(unsorted[a].0 == 0);
                    assert(unsorted.contains(unsorted[a]));
                    let u = choose|u: int| 0 <= u < sorted.len() && sorted[u] == unsorted[a];
                    if u > 0 {
                        assert(key(sorted[0]) <= key(sorted[u]));
                    }
                    assert(sorted[0].0 == 0);
                } else {
                    assert(sorted.contains(sorted[0]));
                    let a = choose|a: int| 0 <= a < unsorted.len() && unsorted[a] == sorted[0];
                    assert(numbers[a] == sorted[0].0);
                    assert(sorted[0].0 != 0);
                }
            }
        }
        if linenum_and_speaker_vec.len() > 0 && linenum_and_speaker_vec[0].0 != 0 {
            diag.warn(Warning::FirstLineNotZero);
        }
        proof {
            assert(diag.log() =~= log_before + heard(diag.whinge, recital_warnings(cast)));
        }
        linenum_and_speaker_vec
    }

    /// Recites the fragment: every line that is left to a member of the
    /// cast is spoken once, in the running order of the cast. A member that
    /// is called at a line number speaks all its lines up to that number.
    pub fn recite(&mut self, diag: &mut Diagnostics, transcript: &mut Vec<Cue>) -> (res: Result<
        (),
        u8,
    >)
        requires
            cast_in_order(old(self)@.cast),
        ensures
            res is Ok,
            is_running_order(old(self)@.cast, running_order(old(self)@.cast)),
            final(self)@ == (SceneFragmentView {
                cast: all_spoken(old(self)@.cast),
                ..old(self)@
            }),
            final(transcript).deep_view() == old(transcript).deep_view() + spoken(
                old(self)@.cast,
                running_order(old(self)@.cast),
            ),
            final(diag).follows(old(diag), recital_warnings(old(self)@.cast)),
    {
        let ghost cast = self@.cast;
        let ghost before = transcript.deep_view();
        let mut most_recent_speaker = String::new();
        let linenum_and_speaker_vec = self.line_up(diag);
        let ghost sheet = linenum_and_speaker_vec@;
        let ghost mut turns: Seq<Turn> = Seq::empty();
        let mut t: usize = 0;
        proof {
            assert(before + spoken(cast, turns) =~= before);
        }
        while t < linenum_and_speaker_vec.len()
            invariant
                t <= linenum_and_speaker_vec.len(),
                sheet == linenum_and_speaker_vec@,
                cast_in_order(cast),
                is_call_sheet(cast, sheet),
                self@.title == old(self)@.title,
                progress(cast, self@.cast, turns),
                called(self@.cast, sheet, t as int),
                t < sheet.len() ==> behind(cast, turns, sheet[t as int]),
                transcript.deep_view() == before + spoken(cast, turns),
                most_recent_speaker@ == last_speaker(cast, turns),
            decreases linenum_and_speaker_vec.len() - t,
        {
            let line_num_speak = linenum_and_speaker_vec[t].0;
            let player_idx = linenum_and_speaker_vec[t].1;
            let mut more = self.chars_in_play[player_idx].is_due(line_num_speak);
            while more
                invariant
                    t < linenum_and_speaker_vec.len(),
                    sheet == linenum_and_speaker_vec@,
                    line_num_speak == sheet[t as int].0,
                    player_idx == sheet[t as int].1,
                    cast_in_order(cast),
                    is_call_sheet(cast, sheet),
                    self@.title == old(self)@.title,
                    progress(cast, self@.cast, turns),
                    called(self@.cast, sheet, t as int),
                    behind(cast, turns, sheet[t as int]),
                    transcript.deep_view() == before + spoken(cast, turns),
                    most_recent_speaker@ == last_speaker(cast, turns),
                    more == due(self@.cast[player_idx as int], line_num_speak),
                decreases self@.cast[player_idx as int].lines.len() - self@.cast[player_idx as int].cursor,
            {
                let ghost now = self@.cast;
                let ghost speaker = now[player_idx as int];
                proof {
                    assert(speaker == self.chars_in_play[player_idx as int]@);
                    assert(speaker.cursor < self.chars_in_play[player_idx as int].char_lines.len());
                    lemma_speak_step(cast, now, turns, sheet, t as int);
                }
                self.chars_in_play[player_idx].speak(&mut most_recent_speaker, transcript);
                proof {
                    assert(self@.cast =~= now.update(player_idx as int, speaker.advanced()));
                    turns = turns.push(Turn { speaker: player_idx as int, line: speaker.cursor as int });
                    assert(transcript.deep_view() =~= before + spoken(cast, turns));
                }
                more = self.chars_in_play[player_idx].is_due(line_num_speak);
            }
            proof {
                lemma_next_call(cast, self@.cast, turns, sheet, t as int);
            }
            t += 1;
        }
        proof {
            lemma_recital_done(cast, self@.cast, turns, sheet);
            lemma_running_order_is(cast, turns);
        }
        Ok(())
    }

    /// Whether a member of the cast bears `name`.
    pub fn has_name(&self, name: &String) -> (b: bool)
        ensures
            b == names(self@.cast).contains(name@),
    {
        let ghost all = names(self@.cast);
        let mut i: usize = 0;
        while i < self.chars_in_play.len()
            invariant
                i <= self.chars_in_play.len(),
                all == names(self@.cast),
                forall|k: int| 0 <= k < i ==> all[k] != name@,
            decreases self.chars_in_play.len() - i,
        {
            proof {
                assert(all[i as int] == self.chars_in_play[i as int]@.name);
            }
            if self.chars_in_play[i].char_name == *name {
                return true;
            }
            i += 1;
        }
        false
    }

    /// Announces the title, if there is one, and the entrance of every
    /// member of the cast whose name `prev_fragment` does not have.
    pub fn enter(&self, prev_fragment: &SceneFragment, transcript: &mut Vec<Cue>)
        ensures
            final(transcript).deep_view() == old(transcript).deep_view() + title_cue(
                self@.title,
                false,
            ) + self@.enter_cues_after(prev_fragment@),
    {
        let ghost before = transcript.deep_view();
        let ghost cast = names(self@.cast);
        let ghost present = names(prev_fragment@.cast);
        if !is_blank(self.scene_title.as_str()) {
            emit(transcript, Cue::Title(self.scene_title.clone()));
        }
        let ghost titled = transcript.deep_view();
        assert(titled =~= before + title_cue(self@.title, false));
        let mut i: usize = 0;
        assert(cast.take(0) =~= Seq::empty());
        assert(titled + enter_cues(cast.take(0), present) =~= titled);
        while i < self.chars_in_play.len()
            invariant
                i <= self.chars_in_play.len(),
                cast == names(self@.cast),
                present == names(prev_fragment@.cast),
                transcript.deep_view() == titled + enter_cues(cast.take(i as int), present),
            decreases self.chars_in_play.len() - i,
        {
            proof {
                assert(cast.take(i + 1).drop_last() =~= cast.take(i as int));
                assert(cast.take(i + 1).last() == self.chars_in_play[i as int]@.name);
            }
            if !prev_fragment.has_name(&self.chars_in_play[i].char_name) {
                emit(transcript, Cue::Enter(self.chars_in_play[i].char_name.clone()));
            }
            assert(transcript.deep_view() =~= titled + enter_cues(cast.take(i + 1), present));
            i += 1;
        }
        assert(cast.take(cast.len() as int) =~= cast);
    }

    /// Announces the title, if there is one, as that of the opening scene,
    /// and the entrance of every member of the cast.
    pub fn enter_all(&self, transcript: &mut Vec<Cue>)
        ensures
            final(transcript).deep_view() == old(transcript).deep_view() + title_cue(
                self@.title,
                true,
            ) + enter_cues(names(self@.cast), Seq::empty()),
    {
        let ghost before = transcript.deep_view();
        let ghost cast = names(self@.cast);
        let ghost present = Seq::<Seq<char>>::empty();
        if !is_blank(self.scene_title.as_str()) {
            emit(transcript, Cue::OpeningTitle(self.scene_title.clone()));
        }
        let ghost titled = transcript.deep_view();
        assert(titled =~= before + title_cue(self@.title, true));
        let mut i: usize = 0;
        assert(cast.take(0) =~= Seq::empty());
        assert(titled + enter_cues(cast.take(0), present) =~= titled);
        while i < self.chars_in_play.len()
            invariant
                i <= self.chars_in_play.len(),
                cast == names(self@.cast),
                present == Seq::<Seq<char>>::empty(),
                transcript.deep_view() == titled + enter_cues(cast.take(i as int), present),
            decreases self.chars_in_play.len() - i,
        {
            proof {
                assert(cast.take(i + 1).drop_last() =~= cast.take(i as int));
                assert(cast.take(i + 1).last() == self.chars_in_play[i as int]@.name);
                assert(!present.contains(self.chars_in_play[i as int]@.name));
            }
            emit(transcript, Cue::Enter(self.chars_in_play[i].char_name.clone()));
            assert(transcript.deep_view() =~= titled + enter_cues(cast.take(i + 1), present));
            i += 1;
        }
        assert(cast.take(cast.len() as int) =~= cast);
    }

    /// Announces the exit of every member of the cast whose name
    /// `next_fragment` does not have, last member first, and ends with an
    /// empty line.
    pub fn exit(&self, next_fragment: &SceneFragment, transcript: &mut Vec<Cue>)
        ensures
            final(transcript).deep_view() == old(transcript).deep_view()
                + self@.exit_cues_before(next_fragment@) + seq![CueView::Blank],
    {
        let ghost before = transcript.deep_view();
        let ghost cast = names(self@.cast);
        let ghost staying = names(next_fragment@.cast);
        let mut i: usize = self.chars_in_play.len();
        assert(cast.take(cast.len() as int) =~= cast);
        while i > 0
            invariant
                i <= self.chars_in_play.len(),
                cast == names(self@.cast),
                staying == names(next_fragment@.cast),
                transcript.deep_view() + exit_cues(cast.take(i as int), staying) == before
                    + exit_cues(cast, staying),
            decreases i,
        {
            let ghost so_far = transcript.deep_view();
            proof {
                assert(cast.take(i as int).drop_last() =~= cast.take(i - 1));
                assert(cast.take(i as int).last() == self.chars_in_play[i - 1]@.name);
            }
            i -= 1;
            if !next_fragment.has_name(&self.chars_in_play[i].char_name) {
                emit(transcript, Cue::Exit(self.chars_in_play[i].char_name.clone()));
            }
            assert(transcript.deep_view() + exit_cues(cast.take(i as int), staying) =~= so_far
                + exit_cues(cast.take(i + 1), staying));
        }
        assert(cast.take(0) =~= Seq::empty());
        assert(transcript.deep_view() =~= before + exit_cues(cast, staying));
        emit(transcript, Cue::Blank);
    }

    /// Announces the exit of every member of the cast, last member first.
    pub fn exit_all(&self, transcript: &mut Vec<Cue>)
        ensures
            final(transcript).deep_view() == old(transcript).deep_view() + exit_cues(
                names(self@.cast),
                Seq::empty(),
            ),
    {
        let ghost before = transcript.deep_view();
        let ghost cast = names(self@.cast);
        let ghost staying = Seq::<Seq<char>>::empty();
        let mut i: usize = self.chars_in_play.len();
        assert(cast.take(cast.len() as int) =~= cast);
        while i > 0
            invariant
                i <= self.chars_in_play.len(),
                cast == names(self@.cast),
                staying == Seq::<Seq<char>>::empty(),
                transcript.deep_view() + exit_cues(cast.take(i as int), staying) == before
                    + exit_cues(cast, staying),
            decreases i,
        {
            let ghost so_far = transcript.deep_view();
            proof {
                assert(cast.take(i as int).drop_last() =~= cast.take(i - 1));
                assert(cast.take(i as int).last() == self.chars_in_play[i - 1]@.name);
                assert(!staying.contains(self.chars_in_play[i - 1]@.name));
            }
            i -= 1;
            emit(transcript, Cue::Exit(self.chars_in_play[i].char_name.clone()));
            assert(transcript.deep_view() + exit_cues(cast.take(i as int), staying) =~= so_far
                + exit_cues(cast.take(i + 1), staying));
        }
        assert(cast.take(0) =~= Seq::empty());
        assert(transcript.deep_view() =~= before + exit_cues(cast, staying));
    }
}

} // verus!
