//! The play: its scene fragments in the order of the script. A play loads
//! itself from a script file and recites its fragments in turn, each between
//! its entrances and its exits.

use crate::cue::{Cue, CueView};
use crate::diagnostics::{heard, Diagnostics, Warning, WarningView};
use crate::recital::{all_spoken, cast_in_order, recital_warnings, running_order, spoken};
use crate::order::ascending;
use crate::scene_fragments::{enter_cues, exit_cues, first_line, loaded_fragment, names, title_cue,
    SceneFragment, SceneFragmentView};
use crate::shelf::{read, LoadError, LoadErrorView, Loaded, Shelf, ShelfView};
use crate::text::{blank, is_blank, join_from, joined, split_whitespace, tokens};
use vstd::prelude::*;

verus! {

/// What a line of the script says.
#[derive(Debug, PartialEq, Eq)]
pub enum ScriptDirective {
    /// The title of the scene that begins here.
    Title(String),
    /// The path of the cast file of the next fragment.
    FragmentConfigRef(String),
}

/// A `ScriptDirective` with its text as a sequence of characters.
pub enum ScriptDirectiveView {
    Title(Seq<char>),
    FragmentConfigRef(Seq<char>),
}

impl View for ScriptDirective {
    type V = ScriptDirectiveView;

    open spec fn view(&self) -> ScriptDirectiveView {
        match self {
            ScriptDirective::Title(text) => ScriptDirectiveView::Title(text@),
            ScriptDirective::FragmentConfigRef(path) => ScriptDirectiveView::FragmentConfigRef(
                path@,
            ),
        }
    }
}

impl DeepView for ScriptDirective {
    type V = ScriptDirectiveView;

    open spec fn deep_view(&self) -> ScriptDirectiveView {
        self@
    }
}

/// The directives of a script, in the order of its lines.
pub type ScriptConfig = Vec<ScriptDirective>;

/// The token that marks a title line of the script.
pub open spec fn scene_marker() -> Seq<char> {
    "[scene]"@
}

/// What a line of the script gives. A line whose first token is the scene
/// marker gives a title, made of its other tokens joined by single spaces,
/// where it has other tokens. Any other line that is not blank gives a cast
/// file, named by its first token.
pub open spec fn script_directive(line: Seq<char>) -> Option<ScriptDirectiveView> {
    let words = tokens(line);
    if words.len() == 0 {
        None
    } else if words[0] == scene_marker() {
        if words.len() == 1 {
            None
        } else {
            Some(ScriptDirectiveView::Title(joined(words.skip(1))))
        }
    } else {
        Some(ScriptDirectiveView::FragmentConfigRef(words[0]))
    }
}

/// The warning that a line of the script raises: a scene marker without a
/// title, or tokens behind the name of a cast file.
pub open spec fn script_complaint(line: Seq<char>) -> Option<WarningView> {
    let words = tokens(line);
    if words.len() == 0 {
        None
    } else if words[0] == scene_marker() {
        if words.len() == 1 {
            Some(WarningView::MissingTitle)
        } else {
            None
        }
    } else if words.len() > 1 {
        Some(WarningView::ExtraScriptTokens(words[0]))
    } else {
        None
    }
}

/// The directives that the lines of a script give, in file order.
pub open spec fn parsed_script(lines: Seq<Seq<char>>) -> Seq<ScriptDirectiveView> {
    lines.filter_map(|l: Seq<char>| script_directive(l))
}

/// The warnings that the lines of a script raise, in file order.
pub open spec fn script_warnings(lines: Seq<Seq<char>>) -> Seq<WarningView> {
    lines.filter_map(|l: Seq<char>| script_complaint(l))
}

/// Where the reduction of directives to fragments stands.
pub struct Staging {
    /// The title that waits for the next fragment; empty if none does.
    pub title: Seq<char>,
    /// The fragments built so far.
    pub fragments: Seq<SceneFragmentView>,
}

/// The fragments that the directives give. A title waits for the next cast
/// file; a cast file gives a fragment under the waiting title, loaded from
/// the shelf, and leaves no title waiting. The first fragment that cannot
/// be loaded ends the load with its error.
pub open spec fn staged_fragments(directives: Seq<ScriptDirectiveView>, shelf: ShelfView) -> Loaded<
    Staging,
>
    decreases directives.len(),
{
    if directives.len() == 0 {
        Loaded {
            result: Ok(Staging { title: Seq::empty(), fragments: Seq::empty() }),
            raised: Seq::empty(),
        }
    } else {
        let before = staged_fragments(directives.drop_last(), shelf);
        match before.result {
            Err(_) => before,
            Ok(staging) => match directives.last() {
                ScriptDirectiveView::Title(text) => Loaded {
                    result: Ok(Staging { title: text, ..staging }),
                    raised: before.raised,
                },
                ScriptDirectiveView::FragmentConfigRef(path) => {
                    let loaded = loaded_fragment(
                        SceneFragmentView { title: staging.title, cast: Seq::empty() },
                        path,
                        shelf,
                    );
                    Loaded {
                        result: match loaded.result {
                            Ok(fragment) => Ok(
                                Staging {
                                    title: Seq::empty(),
                                    fragments: staging.fragments.push(fragment),
                                },
                            ),
                            Err(e) => Err(e),
                        },
                        raised: before.raised + loaded.raised,
                    }
                },
            },
        }
    }
}

/// The fragments of a play after the script at `path` was loaded into it:
/// those it had, followed by those of the script. The load fails where the
/// script cannot be had or gives no directive, where a fragment cannot be
/// loaded, where the play is left without fragments, and where its first
/// fragment has a blank title.
pub open spec fn loaded_play(
    before: Seq<SceneFragmentView>,
    path: Seq<char>,
    shelf: ShelfView,
) -> Loaded<Seq<SceneFragmentView>> {
    match read(shelf, path) {
        Err(e) => Loaded { result: Err(e), raised: Seq::empty() },
        Ok(lines) => if parsed_script(lines).len() == 0 {
            Loaded { result: Err(LoadErrorView::Empty(path)), raised: script_warnings(lines) }
        } else {
            let staged = staged_fragments(parsed_script(lines), shelf);
            Loaded {
                result: match staged.result {
                    Err(e) => Err(e),
                    Ok(staging) => {
                        let all = before + staging.fragments;
                        if all.len() == 0 {
                            Err(LoadErrorView::NoFragments)
                        } else if blank(all[0].title) {
                            Err(LoadErrorView::UntitledOpening)
                        } else {
                            Ok(all)
                        }
                    },
                },
                raised: script_warnings(lines) + staged.raised,
            }
        },
    }
}

/// Once a fragment cannot be loaded, further directives change nothing.
proof fn lemma_staging_failed(directives: Seq<ScriptDirectiveView>, shelf: ShelfView, k: int)
    requires
        0 <= k <= directives.len(),
        staged_fragments(directives.take(k), shelf).result is Err,
    ensures
        staged_fragments(directives, shelf) == staged_fragments(directives.take(k), shelf),
    decreases directives.len() - k,
{
    if k == directives.len() {
        assert(directives.take(k) =~= directives);
    } else {
        assert(directives.drop_last().take(k) =~= directives.take(k));
        lemma_staging_failed(directives.drop_last(), shelf, k);
    }
}

/// Whether the dialogue of every member of every fragment ascends by line
/// number.
pub open spec fn fragments_in_order(fragments: Seq<SceneFragmentView>) -> bool {
    forall|i: int| 0 <= i < fragments.len() ==> cast_in_order((#[trigger] fragments[i]).cast)
}

/// Whether the cast of every fragment ascends by first line number.
pub open spec fn casts_sorted(fragments: Seq<SceneFragmentView>) -> bool {
    forall|i: int|
        0 <= i < fragments.len() ==> ascending((#[trigger] fragments[i]).cast, first_line())
}

/// The fragments after each was recited.
pub open spec fn all_recited(fragments: Seq<SceneFragmentView>) -> Seq<SceneFragmentView> {
    fragments.map_values(|f: SceneFragmentView| SceneFragmentView { cast: all_spoken(f.cast), ..f })
}

/// What fragment `i` adds to the transcript of a play: title and entrances,
/// all of them for the first fragment, else those that the fragment before
/// lacks; the dialogue in running order; the exits, all of them for the last
/// fragment, else those that the next fragment lacks and an empty line.
pub open spec fn fragment_cues(fragments: Seq<SceneFragmentView>, i: int) -> Seq<CueView> {
    let f = fragments[i];
    let entrance = if i == 0 {
        title_cue(f.title, true) + enter_cues(names(f.cast), Seq::empty())
    } else {
        title_cue(f.title, false) + f.enter_cues_after(fragments[i - 1])
    };
    let leave = if i == fragments.len() - 1 {
        exit_cues(names(f.cast), Seq::empty())
    } else {
        f.exit_cues_before(fragments[i + 1]) + seq![CueView::Blank]
    };
    entrance + spoken(f.cast, running_order(f.cast)) + leave
}

/// The transcript of the first `upto` fragments of a play.
pub open spec fn play_cues(fragments: Seq<SceneFragmentView>, upto: int) -> Seq<CueView>
    decreases upto,
{
    if upto <= 0 {
        Seq::empty()
    } else {
        play_cues(fragments, upto - 1) + fragment_cues(fragments, upto - 1)
    }
}

/// The warnings that reciting the first `upto` fragments of a play raises.
pub open spec fn play_warnings(fragments: Seq<SceneFragmentView>, upto: int) -> Seq<WarningView>
    decreases upto,
{
    if upto <= 0 {
        Seq::empty()
    } else {
        play_warnings(fragments, upto - 1) + recital_warnings(fragments[upto - 1].cast)
    }
}

/// What a fragment adds to the transcript depends on itself and on the names
/// of its neighbours alone.
proof fn lemma_fragment_cues_go_by_names(
    a: Seq<SceneFragmentView>,
    b: Seq<SceneFragmentView>,
    i: int,
)
    requires
        a.len() == b.len(),
        0 <= i < a.len(),
        a[i] == b[i],
        i > 0 ==> a[i - 1] == all_recited(b)[i - 1],
        i + 1 < a.len() ==> a[i + 1] == b[i + 1],
    ensures
        fragment_cues(a, i) == fragment_cues(b, i),
{
    if i > 0 {
        assert(names(all_spoken(b[i - 1].cast)) =~= names(b[i - 1].cast));
    }
}

/// Reciting leaves every dialogue as it was, and so every dialogue and
/// every cast in order.
proof fn lemma_recited_in_order(fragments: Seq<SceneFragmentView>)
    requires
        fragments_in_order(fragments),
        casts_sorted(fragments),
    ensures
        fragments_in_order(all_recited(fragments)),
        casts_sorted(all_recited(fragments)),
{
    assert forall|k: int| 0 <= k < fragments.len() implies ascending(
        (#[trigger] all_recited(fragments)[k]).cast,
        first_line(),
    ) by {
        let cast = fragments[k].cast;
        let after = all_spoken(cast);
        assert(ascending(cast, first_line()));
        assert forall|u: int, v: int| 0 <= u < v < after.len() implies first_line()(
            #[trigger] after[u],
        ) <= first_line()(#[trigger] after[v]) by {
            assert(first_line()(cast[u]) <= first_line()(cast[v]));
        }
    }
    assert forall|k: int| 0 <= k < fragments.len() implies cast_in_order(
        (#[trigger] all_recited(fragments)[k]).cast,
    ) by {
        let cast = fragments[k].cast;
        assert(cast_in_order(cast));
        assert forall|m: int| 0 <= m < cast.len() implies (#[trigger] all_spoken(cast)[m]).in_order() by {
            assert(cast[m].in_order());
        }
    }
}

/// A play: scene fragments in the order in which they are recited.
pub struct Play {
    fragments: Vec<SceneFragment>,
}

impl View for Play {
    type V = Seq<SceneFragmentView>;

    closed spec fn view(&self) -> Seq<SceneFragmentView> {
        self.fragments.deep_view()
    }
}

impl Play {
    /// In every fragment of a play, the dialogue of every member ascends by
    /// line number, and the cast by first line number.
    #[verifier::type_invariant]
    spec fn well_formed(&self) -> bool {
        &&& fragments_in_order(self.fragments.deep_view())
        &&& casts_sorted(self.fragments.deep_view())
    }

    /// A play without fragments.
    pub fn new() -> (play: Self)
        ensures
            play@ == Seq::<SceneFragmentView>::empty(),
    {
        let play = Play { fragments: Vec::new() };
        assert(play.fragments.deep_view() =~= Seq::empty());
        play
    }

    /// The fragments of the play.
    pub fn fragments(&self) -> (fragments: &Vec<SceneFragment>)
        ensures
            fragments.deep_view() == self@,
            fragments_in_order(self@),
            casts_sorted(self@),
    {
        proof {
            use_type_invariant(self);
        }
        &self.fragments
    }

    /// Reads one line of the script and adds what it gives to `play_cfg`.
    pub fn add_config(&self, cfg_line: &String, play_cfg: &mut ScriptConfig, diag: &mut Diagnostics)
        ensures
            final(play_cfg).deep_view() == old(play_cfg).deep_view() + match script_directive(
                cfg_line@,
            ) {
                Some(directive) => seq![directive],
                None => Seq::empty(),
            },
            final(diag).follows(
                old(diag),
                match script_complaint(cfg_line@) {
                    Some(w) => seq![w],
                    None => Seq::empty(),
                },
            ),
    {
        let ghost cfg_before = play_cfg.deep_view();
        let ghost log_before = diag.log();
        let cfg_items = split_whitespace(cfg_line.as_str());
        if cfg_items.len() == 0 {
            proof {
                assert(play_cfg.deep_view() =~= cfg_before + Seq::empty());
                assert(diag.log() =~= log_before + heard(diag.whinge, Seq::empty()));
            }
            return ;
        }
        proof {
            assert(cfg_items.deep_view()[0] == cfg_items[0]@);
        }
        let marker = String::from_str("[scene]");
        if cfg_items[0] == marker {
            if cfg_items.len() == 1 {
                diag.warn(Warning::MissingTitle);
                proof {
                    assert(play_cfg.deep_view() =~= cfg_before + Seq::empty());
                }
            } else {
                let scene_title = join_from(&cfg_items, 1);
                play_cfg.push(ScriptDirective::Title(scene_title));
                proof {
                    assert(play_cfg.deep_view() =~= cfg_before + seq![
                        ScriptDirectiveView::Title(scene_title@),
                    ]);
                    assert(diag.log() =~= log_before + heard(diag.whinge, Seq::empty()));
                }
            }
        } else {
            play_cfg.push(ScriptDirective::FragmentConfigRef(cfg_items[0].clone()));
            proof {
                assert(play_cfg.deep_view() =~= cfg_before + seq![
                    ScriptDirectiveView::FragmentConfigRef(cfg_items[0]@),
                ]);
            }
            if cfg_items.len() > 1 {
                diag.warn(Warning::ExtraScriptTokens(cfg_items[0].clone()));
            } else {
                proof {
                    assert(diag.log() =~= log_before + heard(diag.whinge, Seq::empty()));
                }
            }
        }
    }

    /// Reads the script at `cfg_fname` from the shelf and adds its
    /// directives to `play_cfg`. A script that cannot be had, or that gives
    /// no directive, is an error.
    pub fn read_config(
        &self,
        cfg_fname: &String,
        shelf: &Shelf,
        play_cfg: &mut ScriptConfig,
        diag: &mut Diagnostics,
    ) -> (res: Result<(), LoadError>)
        ensures
            match read(shelf@, cfg_fname@) {
                Ok(lines) => {
                    &&& final(diag).follows(old(diag), script_warnings(lines))
                    &&& final(play_cfg).deep_view() == old(play_cfg).deep_view() + parsed_script(
                        lines,
                    )
                    &&& if parsed_script(lines).len() == 0 {
                        res is Err && res->Err_0@ == LoadErrorView::Empty(cfg_fname@)
                    } else {
                        res is Ok
                    }
                },
                Err(e) => {
                    &&& res is Err
                    &&& res->Err_0@ == e
                    &&& final(play_cfg).deep_view() == old(play_cfg).deep_view()
                    &&& final(diag).follows(old(diag), Seq::empty())
                },
            },
    {
        let ghost cfg_before = play_cfg.deep_view();
        let ghost log_before = diag.log();
        let cfg_lines = match shelf.lines(cfg_fname) {
            Ok(lines) => lines,
            Err(e) => {
                proof {
                    assert(diag.log() =~= log_before + heard(diag.whinge, Seq::empty()));
                }
                return Err(e);
            },
        };
        let ghost lines = cfg_lines.deep_view();
        let start = play_cfg.len();
        let mut i: usize = 0;
        proof {
            assert(lines.take(0) =~= Seq::empty());
            assert(play_cfg.deep_view() =~= cfg_before + parsed_script(lines.take(0)));
            assert(diag.log() =~= log_before + heard(diag.whinge, script_warnings(lines.take(0))));
        }
        while i < cfg_lines.len()
            invariant
                i <= cfg_lines.len(),
                lines == cfg_lines.deep_view(),
                start == cfg_before.len(),
                play_cfg.deep_view() == cfg_before + parsed_script(lines.take(i as int)),
                diag.whinge == old(diag).whinge,
                diag.log() == log_before + heard(
                    diag.whinge,
                    script_warnings(lines.take(i as int)),
                ),
            decreases cfg_lines.len() - i,
        {
            proof {
                lines.lemma_filter_map_take_succ(|l: Seq<char>| script_directive(l), i as int);
                lines.lemma_filter_map_take_succ(|l: Seq<char>| script_complaint(l), i as int);
                assert(lines[i as int] == cfg_lines[i as int]@);
            }
            self.add_config(&cfg_lines[i], play_cfg, diag);
            proof {
                assert(play_cfg.deep_view() =~= cfg_before + parsed_script(lines.take(i + 1)));
                assert(diag.log() =~= log_before + heard(
                    diag.whinge,
                    script_warnings(lines.take(i + 1)),
                ));
            }
            i += 1;
        }
        proof {
            assert(lines.take(lines.len() as int) =~= lines);
            assert(play_cfg.deep_view().len() == cfg_before.len() + parsed_script(lines).len());
        }
        if play_cfg.len() == start {
            return Err(LoadError::Empty(cfg_fname.clone()));
        }
        Ok(())
    }

    /// Recites fragment `idx` of `fragments` between its entrances and its
    /// exits.
    fn recite_fragment(
        fragments: &mut Vec<SceneFragment>,
        idx: usize,
        diag: &mut Diagnostics,
        transcript: &mut Vec<Cue>,
    )
        requires
            idx < old(fragments).len(),
            cast_in_order(old(fragments)[idx as int]@.cast),
        ensures
            final(fragments).len() == old(fragments).len(),
            forall|k: int|
                0 <= k < old(fragments).len() && k != idx ==> #[trigger] final(fragments)[k] == old(
                    fragments,
                )[k],
            final(fragments)[idx as int]@ == (SceneFragmentView {
                cast: all_spoken(old(fragments)[idx as int]@.cast),
                ..old(fragments)[idx as int]@
            }),
            final(transcript).deep_view() == old(transcript).deep_view() + fragment_cues(
                old(fragments).deep_view(),
                idx as int,
            ),
            final(diag).follows(old(diag), recital_warnings(old(fragments)[idx as int]@.cast)),
    {
        let ghost start = fragments.deep_view();
        let ghost f = start[idx as int];
        let ghost before = transcript.deep_view();
        let num_fragments = fragments.len();
        if idx == 0 {
            fragments[idx].enter_all(transcript);
        } else {
            let prev_fragment_idx = idx - 1;
            fragments[idx].enter(&fragments[prev_fragment_idx], transcript);
        }
        let _ = fragments[idx].recite(diag, transcript);
        proof {
            assert(names(all_spoken(f.cast)) =~= names(f.cast));
        }
        if idx == num_fragments - 1 {
            fragments[idx].exit_all(transcript);
        } else {
            let next_fragment_idx = idx + 1;
            fragments[idx].exit(&fragments[next_fragment_idx], transcript);
        }
        proof {
            assert(transcript.deep_view() =~= before + fragment_cues(start, idx as int));
        }
    }

    /// Recites the play: each fragment in turn announces its entrances,
    /// recites its dialogue and announces its exits. The first fragment
    /// announces every entrance and the last every exit; between two
    /// fragments only those leave and enter whom the other does not have.
    pub fn recite(&mut self, diag: &mut Diagnostics, transcript: &mut Vec<Cue>) -> (res: Result<
        (),
        u8,
    >)
        ensures
            res is Ok,
            final(self)@ == all_recited(old(self)@),
            final(transcript).deep_view() == old(transcript).deep_view() + play_cues(
                old(self)@,
                old(self)@.len() as int,
            ),
            final(diag).follows(old(diag), play_warnings(old(self)@, old(self)@.len() as int)),
    {
        proof {
            use_type_invariant(&*self);
        }
        let ghost start = self.fragments.deep_view();
        let ghost before = transcript.deep_view();
        let ghost log_before = diag.log();
        let mut fragments: Vec<SceneFragment> = Vec::new();
        assert(fragments.deep_view() =~= Seq::empty());
        core::mem::swap(&mut self.fragments, &mut fragments);
        let num_fragments = fragments.len();
        let mut cur_fragment_idx: usize = 0;
        proof {
            assert(before + play_cues(start, 0) =~= before);
            assert(log_before + heard(diag.whinge, play_warnings(start, 0)) =~= log_before);
        }
        while cur_fragment_idx < num_fragments
            invariant
                cur_fragment_idx <= num_fragments,
                num_fragments == fragments.len(),
                num_fragments == start.len(),
                fragments_in_order(start),
                casts_sorted(start),
                forall|k: int|
                    0 <= k < cur_fragment_idx ==> (#[trigger] fragments[k])@ == all_recited(
                        start,
                    )[k],
                forall|k: int|
                    cur_fragment_idx <= k < num_fragments ==> (#[trigger] fragments[k])@
                        == start[k],
                transcript.deep_view() == before + play_cues(start, cur_fragment_idx as int),
                diag.whinge == old(diag).whinge,
                diag.log() == log_before + heard(
                    diag.whinge,
                    play_warnings(start, cur_fragment_idx as int),
                ),
            decreases num_fragments - cur_fragment_idx,
        {
            let ghost mixed = fragments.deep_view();
            proof {
                assert(fragments[cur_fragment_idx as int]@ == start[cur_fragment_idx as int]);
                assert(cast_in_order(start[cur_fragment_idx as int].cast));
                lemma_fragment_cues_go_by_names(mixed, start, cur_fragment_idx as int);
            }
            Play::recite_fragment(&mut fragments, cur_fragment_idx, diag, transcript);
            proof {
                assert(transcript.deep_view() =~= before + play_cues(start, cur_fragment_idx + 1));
                assert(diag.log() =~= log_before + heard(
                    diag.whinge,
                    play_warnings(start, cur_fragment_idx + 1),
                ));
            }
            cur_fragment_idx += 1;
        }
        proof {
            assert(fragments.deep_view() =~= all_recited(start));
            lemma_recited_in_order(start);
        }
        core::mem::swap(&mut self.fragments, &mut fragments);
        Ok(())
    }

    /// The fragments that the directives give, each loaded from the shelf.
    fn stage(play_cfg: &ScriptConfig, shelf: &Shelf, diag: &mut Diagnostics) -> (res: Result<
        Vec<SceneFragment>,
        LoadError,
    >)
        ensures
            final(diag).follows(old(diag), staged_fragments(play_cfg.deep_view(), shelf@).raised),
            match staged_fragments(play_cfg.deep_view(), shelf@).result {
                Ok(staging) => {
                    &&& res is Ok
                    &&& res->Ok_0.deep_view() == staging.fragments
                    &&& fragments_in_order(staging.fragments)
                    &&& casts_sorted(staging.fragments)
                },
                Err(e) => {
                    &&& res is Err
                    &&& res->Err_0@ == e
                },
            },
    {
        let ghost directives = play_cfg.deep_view();
        let ghost log_before = diag.log();
        let mut staged: Vec<SceneFragment> = Vec::new();
        let mut title_str = String::new();
        let mut i: usize = 0;
        proof {
            assert(directives.take(0) =~= Seq::empty());
            assert(staged.deep_view() =~= Seq::empty());
            assert(diag.log() =~= log_before + heard(diag.whinge, Seq::empty()));
        }
        while i < play_cfg.len()
            invariant
                i <= play_cfg.len(),
                directives == play_cfg.deep_view(),
                staged_fragments(directives.take(i as int), shelf@).result == Ok::<
                    Staging,
                    LoadErrorView,
                >(Staging { title: title_str@, fragments: staged.deep_view() }),
                fragments_in_order(staged.deep_view()),
                casts_sorted(staged.deep_view()),
                log_before == old(diag).log(),
                diag.whinge == old(diag).whinge,
                diag.log() == log_before + heard(
                    diag.whinge,
                    staged_fragments(directives.take(i as int), shelf@).raised,
                ),
            decreases play_cfg.len() - i,
        {
            let ghost staged_before = staged.deep_view();
            proof {
                assert(directives.take(i + 1).drop_last() =~= directives.take(i as int));
                assert(directives.take(i + 1).last() == play_cfg[i as int]@);
            }
            match &play_cfg[i] {
                ScriptDirective::Title(text_field) => {
                    title_str = text_field.clone();
                },
                ScriptDirective::FragmentConfigRef(text_field) => {
                    let mut fragment = SceneFragment::new(&title_str);
                    title_str = String::new();
                    match fragment.prepare(text_field, shelf, diag) {
                        Ok(()) => {},
                        Err(e) => {
                            proof {
                                let failed = staged_fragments(directives.take(i + 1), shelf@);
                                assert(failed.result is Err);
                                assert(diag.log() =~= log_before + heard(
                                    diag.whinge,
                                    failed.raised,
                                ));
                                lemma_staging_failed(directives, shelf@, i + 1);
                            }
                            return Err(e);
                        },
                    }
                    staged.push(fragment);
                    proof {
                        assert(staged.deep_view() =~= staged_before.push(fragment@));
                        assert(diag.log() =~= log_before + heard(
                            diag.whinge,
                            staged_fragments(directives.take(i + 1), shelf@).raised,
                        ));
                    }
                },
            }
            i += 1;
        }
        proof {
            assert(directives.take(directives.len() as int) =~= directives);
        }
        Ok(staged)
    }

    /// Adds `fresh` behind the fragments of the play.
    fn take_on(&mut self, fresh: Vec<SceneFragment>)
        requires
            fragments_in_order(fresh.deep_view()),
            casts_sorted(fresh.deep_view()),
        ensures
            final(self)@ == old(self)@ + fresh.deep_view(),
    {
        proof {
            use_type_invariant(&*self);
        }
        let mut fresh = fresh;
        let mut all: Vec<SceneFragment> = Vec::new();
        let ghost before = self.fragments.deep_view();
        let ghost added = fresh.deep_view();
        assert(all.deep_view() =~= Seq::empty());
        core::mem::swap(&mut self.fragments, &mut all);
        all.append(&mut fresh);
        assert(all.deep_view() =~= before + added);
        core::mem::swap(&mut self.fragments, &mut all);
    }

    /// Builds the fragments that the directives give, each loaded from the
    /// shelf, and adds them to the play. Where a fragment cannot be loaded,
    /// the play stays as it was.
    pub fn process_config(&mut self, play_cfg: &ScriptConfig, shelf: &Shelf, diag: &mut Diagnostics) -> (res:
        Result<(), LoadError>)
        ensures
            final(diag).follows(old(diag), staged_fragments(play_cfg.deep_view(), shelf@).raised),
            match staged_fragments(play_cfg.deep_view(), shelf@).result {
                Ok(staging) => {
                    &&& res is Ok
                    &&& final(self)@ == old(self)@ + staging.fragments
                    &&& fragments_in_order(staging.fragments)
                    &&& casts_sorted(staging.fragments)
                },
                Err(e) => {
                    &&& res is Err
                    &&& res->Err_0@ == e
                    &&& final(self)@ == old(self)@
                },
            },
    {
        match Play::stage(play_cfg, shelf, diag) {
            Ok(staged) => {
                self.take_on(staged);
                Ok(())
            },
            Err(e) => Err(e),
        }
    }

    /// Loads the play from the script at `cfg_fname`: reads the script,
    /// builds its fragments, and checks that the play has a fragment and
    /// that its first fragment has a title. On any failure the play stays
    /// as it was.
    pub fn prepare(&mut self, cfg_fname: &String, shelf: &Shelf, diag: &mut Diagnostics) -> (res:
        Result<(), LoadError>)
        ensures
            final(diag).follows(old(diag), loaded_play(old(self)@, cfg_fname@, shelf@).raised),
            match loaded_play(old(self)@, cfg_fname@, shelf@).result {
                Ok(fragments) => {
                    &&& res is Ok
                    &&& final(self)@ == fragments
                    &&& fragments.len() > 0
                    &&& !blank(fragments[0].title)
                    &&& fragments_in_order(fragments)
                    &&& casts_sorted(fragments)
                },
                Err(e) => {
                    &&& res is Err
                    &&& res->Err_0@ == e
                    &&& final(self)@ == old(self)@
                },
            },
    {
        let ghost log_before = diag.log();
        let ghost before = self.fragments.deep_view();
        let mut playcfg_var: ScriptConfig = Vec::new();
        assert(playcfg_var.deep_view() =~= Seq::empty());
        match self.read_config(cfg_fname, shelf, &mut playcfg_var, diag) {
            Ok(()) => {},
            Err(e) => {
                return Err(e);
            },
        }
        let ghost lines = read(shelf@, cfg_fname@)->Ok_0;
        assert(playcfg_var.deep_view() =~= parsed_script(lines));
        let outcome = Play::stage(&playcfg_var, shelf, diag);
        proof {
            assert(diag.log() =~= log_before + heard(
                diag.whinge,
                script_warnings(lines) + staged_fragments(parsed_script(lines), shelf@).raised,
            ));
        }
        let staged = match outcome {
            Ok(staged) => staged,
            Err(e) => {
                return Err(e);
            },
        };
        let ghost fresh = staged.deep_view();
        proof {
            use_type_invariant(&*self);
            if before.len() > 0 {
                assert((before + fresh)[0] == self.fragments[0]@);
            } else if fresh.len() > 0 {
                assert(before + fresh =~= fresh);
                assert(fresh[0] == staged[0]@);
            }
        }
        if self.fragments.len() == 0 {
            if staged.len() == 0 {
                return Err(LoadError::NoFragments);
            }
            if is_blank(staged[0].scene_title.as_str()) {
                return Err(LoadError::UntitledOpening);
            }
        } else if is_blank(self.fragments[0].scene_title.as_str()) {
            return Err(LoadError::UntitledOpening);
        }
        self.take_on(staged);
        Ok(())
    }
}

} // verus!
