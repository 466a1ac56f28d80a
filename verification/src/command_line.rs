//! What a run does with its arguments, and the run itself: load the play
//! from the script, then recite it.

use crate::cue::{Cue, CueView};
use crate::declarations::{ARGS_MAX, ARGS_MIN, ARG_SCRIPT_IDX, ARG_WHINGE_IDX, EXIT_BAD_CMDLINE};
use crate::diagnostics::{heard, Diagnostics, WarningView};
use crate::play::{loaded_play, play_cues, play_warnings, Play};
use crate::shelf::{read, LoadError, LoadErrorView, Shelf, ShelfView};
use vstd::prelude::*;

verus! {

/// The word that switches diagnostics on.
pub open spec fn whinge_word() -> Seq<char> {
    "whinge"@
}

/// The text before the program's name in the usage message.
pub open spec fn usage_head() -> Seq<char> {
    "Wrong command line arguments. Correct usage: "@
}

/// The text behind the program's name in the usage message.
pub open spec fn usage_tail() -> Seq<char> {
    " <script_file_name> [whinge]\n"@
}

/// The usage message for the program of the given name.
pub fn usage(program_name: &str) -> (message: String)
    ensures
        message@ == usage_head() + program_name@ + usage_tail(),
{
    let mut message = String::from_str("Wrong command line arguments. Correct usage: ");
    message.append(program_name);
    message.append(" <script_file_name> [whinge]\n");
    message
}

/// Whether the arguments of a run are in order: the program's name, the
/// script's path and, if there is a third, the diagnostics word.
pub open spec fn well_formed_args(args: Seq<Seq<char>>) -> bool {
    args.len() == ARGS_MIN || (args.len() == ARGS_MAX && args[ARG_WHINGE_IDX as int]
        == whinge_word())
}

/// Reads the arguments of a run. Where they are in order, `script` becomes
/// the script's path and the result says whether diagnostics are wanted;
/// where they are not, `script` stays as it was.
pub fn parse_args(args: &Vec<String>, script: &mut String) -> (res: Result<bool, u8>)
    ensures
        well_formed_args(args.deep_view()) ==> {
            &&& res == Ok::<bool, u8>(args.len() == ARGS_MAX)
            &&& final(script)@ == args[ARG_SCRIPT_IDX as int]@
        },
        !well_formed_args(args.deep_view()) ==> {
            &&& res == Err::<bool, u8>(EXIT_BAD_CMDLINE)
            &&& final(script)@ == old(script)@
        },
{
    proof {
        assert(args.len() > ARG_WHINGE_IDX ==> args.deep_view()[ARG_WHINGE_IDX as int]
            == args[ARG_WHINGE_IDX as int]@);
    }
    if args.len() < ARGS_MIN || args.len() > ARGS_MAX {
        return Err(EXIT_BAD_CMDLINE);
    }
    let whinge = args.len() == ARGS_MAX;
    if whinge {
        let word = String::from_str("whinge");
        if args[ARG_WHINGE_IDX] != word {
            return Err(EXIT_BAD_CMDLINE);
        }
    }
    *script = args[ARG_SCRIPT_IDX].clone();
    Ok(whinge)
}

/// What a run gives: the transcript and the warnings, and the failure if
/// the play could not be loaded.
pub struct Performance {
    /// `None` if the play was loaded and recited, else why it was not.
    pub failure: Option<LoadErrorView>,
    /// The lines of the transcript; none if the play could not be loaded.
    pub transcript: Seq<CueView>,
    /// The warnings raised, whether or not they are wanted.
    pub raised: Seq<WarningView>,
}

/// The performance of the script at `script` over the files of `shelf`.
pub open spec fn performance(script: Seq<char>, shelf: ShelfView) -> Performance {
    let loaded = loaded_play(Seq::empty(), script, shelf);
    match loaded.result {
        Err(e) => Performance { failure: Some(e), transcript: Seq::empty(), raised: loaded.raised },
        Ok(fragments) => Performance {
            failure: None,
            transcript: play_cues(fragments, fragments.len() as int),
            raised: loaded.raised + play_warnings(fragments, fragments.len() as int),
        },
    }
}

/// A performance depends on what the shelf gives for each path, and on
/// nothing else: over two shelves that give the same for every path, the
/// same script gives the same transcript, the same warnings and the same
/// failure.
pub proof fn lemma_same_files_same_performance(script: Seq<char>, a: ShelfView, b: ShelfView)
    requires
        forall|path: Seq<char>| read(a, path) == read(b, path),
    ensures
        performance(script, a) == performance(script, b),
{
    assert forall|path: Seq<char>| a.dom().contains(path) == b.dom().contains(path) by {
        assert(read(a, path) == read(b, path));
    }
    assert forall|path: Seq<char>| a.dom().contains(path) implies a[path] == b[path] by {
        assert(read(a, path) == read(b, path));
    }
    assert(a =~= b);
}

/// Loads the play from the script at `script` and recites it. Where the
/// play cannot be loaded, nothing is added to the transcript.
pub fn perform(script: &String, shelf: &Shelf, diag: &mut Diagnostics, transcript: &mut Vec<Cue>) -> (res:
    Result<(), LoadError>)
    ensures
        final(diag).follows(old(diag), performance(script@, shelf@).raised),
        final(transcript).deep_view() == old(transcript).deep_view() + performance(
            script@,
            shelf@,
        ).transcript,
        match performance(script@, shelf@).failure {
            Some(e) => res is Err && res->Err_0@ == e,
            None => res is Ok,
        },
{
    let ghost log_before = diag.log();
    let ghost before = transcript.deep_view();
    let mut play_content = Play::new();
    match play_content.prepare(script, shelf, diag) {
        Ok(()) => {},
        Err(e) => {
            proof {
                assert(transcript.deep_view() =~= before + Seq::empty());
            }
            return Err(e);
        },
    }
    let ghost loaded = loaded_play(Seq::empty(), script@, shelf@);
    let _ = play_content.recite(diag, transcript);
    proof {
        let fragments = loaded.result->Ok_0;
        assert(diag.log() =~= log_before + heard(
            diag.whinge,
            loaded.raised + play_warnings(fragments, fragments.len() as int),
        ));
    }
    Ok(())
}

} // verus!
