//! The diagnostics switch and the warnings that the other components raise
//! while it is on. Warnings never change what is loaded or recited.

use crate::text::{decimal, decimal_text};
use vstd::prelude::*;

verus! {

/// Something questionable in the input that was recovered from.
#[derive(Debug, PartialEq, Eq)]
pub enum Warning {
    /// A dialogue line whose leading token is no line number; holds the line.
    MalformedLine(String),
    /// A script line that holds `[scene]` and no title.
    MissingTitle,
    /// A script line with tokens behind the cast file's name; holds that name.
    ExtraScriptTokens(String),
    /// A cast line with more than two tokens; the first two were taken.
    ExtraCastTokens,
    /// A cast line with fewer than two tokens; it was dropped.
    ShortCastLine,
    /// A line number that an earlier line of the fragment bears too.
    DuplicateLine(usize),
    /// The smallest line number of a fragment is not 0.
    FirstLineNotZero,
}

/// What a `Warning` says, with its text as a sequence of characters.
pub enum WarningView {
    MalformedLine(Seq<char>),
    MissingTitle,
    ExtraScriptTokens(Seq<char>),
    ExtraCastTokens,
    ShortCastLine,
    DuplicateLine(usize),
    FirstLineNotZero,
}

impl View for Warning {
    type V = WarningView;

    open spec fn view(&self) -> WarningView {
        match self {
            Warning::MalformedLine(line) => WarningView::MalformedLine(line@),
            Warning::MissingTitle => WarningView::MissingTitle,
            Warning::ExtraScriptTokens(name) => WarningView::ExtraScriptTokens(name@),
            Warning::ExtraCastTokens => WarningView::ExtraCastTokens,
            Warning::ShortCastLine => WarningView::ShortCastLine,
            Warning::DuplicateLine(n) => WarningView::DuplicateLine(*n),
            Warning::FirstLineNotZero => WarningView::FirstLineNotZero,
        }
    }
}

impl DeepView for Warning {
    type V = WarningView;

    open spec fn deep_view(&self) -> WarningView {
        self@
    }
}

/// The line that a warning prints as.
pub open spec fn warning_text(warning: WarningView) -> Seq<char> {
    match warning {
        WarningView::MalformedLine(line) =>
            "Whinge Warning: the first token of the passed in line '"@ + line
                + "' does not represent a valid usize value!"@,
        WarningView::MissingTitle => "Whinge Warning: [scene] directive missing title"@,
        WarningView::ExtraScriptTokens(name) =>
            "Whinge Warning: there are additional tokens after config file name '"@ + name + "'"@,
        WarningView::ExtraCastTokens =>
            "Error: expecting config line to have 2 items but got more than 2 items, pushing first 2 elements"@,
        WarningView::ShortCastLine =>
            "Error: expecting config line to have 2 items but got less than 2 items. Not pushing anything"@,
        WarningView::DuplicateLine(n) =>
            "WHINGE Warning: duplicate line detected for line number: "@ + decimal(n as nat),
        WarningView::FirstLineNotZero => "WHINGE Warning: line number should start at 0!"@,
    }
}

impl Warning {
    /// The line that this warning prints as.
    pub fn text(&self) -> (line: String)
        ensures
            line@ == warning_text(self@),
    {
        match self {
            Warning::MalformedLine(unparsed_line) => {
                let mut line = String::from_str(
                    "Whinge Warning: the first token of the passed in line '",
                );
                line.append(unparsed_line.as_str());
                line.append("' does not represent a valid usize value!");
                line
            },
            Warning::MissingTitle => String::from_str(
                "Whinge Warning: [scene] directive missing title",
            ),
            Warning::ExtraScriptTokens(name) => {
                let mut line = String::from_str(
                    "Whinge Warning: there are additional tokens after config file name '",
                );
                line.append(name.as_str());
                line.append("'");
                line
            },
            Warning::ExtraCastTokens => String::from_str(
                "Error: expecting config line to have 2 items but got more than 2 items, pushing first 2 elements",
            ),
            Warning::ShortCastLine => String::from_str(
                "Error: expecting config line to have 2 items but got less than 2 items. Not pushing anything",
            ),
            Warning::DuplicateLine(n) => {
                let mut line = String::from_str(
                    "WHINGE Warning: duplicate line detected for line number: ",
                );
                let number = decimal_text(*n);
                line.append(number.as_str());
                line
            },
            Warning::FirstLineNotZero => String::from_str(
                "WHINGE Warning: line number should start at 0!",
            ),
        }
    }
}

/// The diagnostics switch together with the warnings raised so far.
pub struct Diagnostics {
    /// Whether warnings are wanted.
    pub whinge: bool,
    /// The warnings raised while `whinge` was on, oldest first.
    pub warnings: Vec<Warning>,
}

/// The warnings that are kept out of `raised`: all of them while the switch
/// is on, none while it is off.
pub open spec fn heard(whinge: bool, raised: Seq<WarningView>) -> Seq<WarningView> {
    if whinge {
        raised
    } else {
        Seq::empty()
    }
}

impl Diagnostics {
    /// The warnings kept so far.
    pub open spec fn log(&self) -> Seq<WarningView> {
        self.warnings.deep_view()
    }

    /// Whether `self` is `before` with the warnings `raised` added, as far as
    /// the switch lets them through.
    pub open spec fn follows(&self, before: &Diagnostics, raised: Seq<WarningView>) -> bool {
        &&& self.whinge == before.whinge
        &&& self.log() == before.log() + heard(before.whinge, raised)
    }

    /// Diagnostics with the switch set as given and nothing raised yet.
    pub fn new(whinge: bool) -> (d: Diagnostics)
        ensures
            d.whinge == whinge,
            d.log() == Seq::<WarningView>::empty(),
    {
        let d = Diagnostics { whinge, warnings: Vec::new() };
        assert(d.log() =~= Seq::<WarningView>::empty());
        d
    }

    /// Keeps `warning` if the switch is on, drops it otherwise.
    pub fn warn(&mut self, warning: Warning)
        ensures
            final(self).follows(old(self), seq![warning@]),
    {
        let ghost before = self.log();
        if self.whinge {
            self.warnings.push(warning);
            assert(self.log() =~= before + seq![warning@]);
        } else {
            assert(self.log() =~= before + Seq::<WarningView>::empty());
        }
    }
}

} // verus!
