//! The files of a play as plain values: what was read from each path, or
//! that it could not be read. Loading a play consults a shelf and nothing
//! else, so what is loaded depends on the shelf alone.

use crate::declarations::GENERATION_FAILURE;
use crate::diagnostics::WarningView;
use vstd::prelude::*;

verus! {

/// Why a play could not be loaded.
#[derive(Debug, PartialEq, Eq)]
pub enum LoadError {
    /// The shelf holds nothing under this path.
    Missing(String),
    /// The file under this path could not be opened or read.
    Unreadable(String),
    /// The file under this path holds no usable line.
    Empty(String),
    /// The script names no cast file, so the play has no fragment.
    NoFragments,
    /// The first fragment of the play has no title.
    UntitledOpening,
}

/// What a `LoadError` says, with its path as a sequence of characters.
pub enum LoadErrorView {
    Missing(Seq<char>),
    Unreadable(Seq<char>),
    Empty(Seq<char>),
    NoFragments,
    UntitledOpening,
}

impl View for LoadError {
    type V = LoadErrorView;

    open spec fn view(&self) -> LoadErrorView {
        match self {
            LoadError::Missing(p) => LoadErrorView::Missing(p@),
            LoadError::Unreadable(p) => LoadErrorView::Unreadable(p@),
            LoadError::Empty(p) => LoadErrorView::Empty(p@),
            LoadError::NoFragments => LoadErrorView::NoFragments,
            LoadError::UntitledOpening => LoadErrorView::UntitledOpening,
        }
    }
}

impl LoadError {
    /// The exit code that stands for this failure: every failure to load is
    /// a generation failure.
    pub fn code(&self) -> (c: u8)
        ensures
            c == GENERATION_FAILURE,
    {
        GENERATION_FAILURE
    }
}

/// How a load came out, with the warnings that were raised on the way.
pub struct Loaded<T> {
    /// What was loaded, or why nothing was.
    pub result: Result<T, LoadErrorView>,
    /// The warnings raised up to the end, or up to the failure.
    pub raised: Seq<WarningView>,
}

/// What a shelf holds: under each path the trimmed lines of that file, or
/// `None` where the file could not be read.
pub type ShelfView = Map<Seq<char>, Option<Seq<Seq<char>>>>;

/// What the first entry under `path` holds, if there is one.
pub open spec fn found(
    files: Seq<(Seq<char>, Option<Seq<Seq<char>>>)>,
    path: Seq<char>,
) -> Option<Option<Seq<Seq<char>>>>
    decreases files.len(),
{
    if files.len() == 0 {
        None
    } else if files[0].0 == path {
        Some(files[0].1)
    } else {
        found(files.drop_first(), path)
    }
}

/// The lines under `path`, or why there are none.
pub open spec fn read(shelf: ShelfView, path: Seq<char>) -> Result<Seq<Seq<char>>, LoadErrorView> {
    if !shelf.dom().contains(path) {
        Err(LoadErrorView::Missing(path))
    } else {
        match shelf[path] {
            None => Err(LoadErrorView::Unreadable(path)),
            Some(lines) => Ok(lines),
        }
    }
}

proof fn lemma_found_push(
    files: Seq<(Seq<char>, Option<Seq<Seq<char>>>)>,
    entry: (Seq<char>, Option<Seq<Seq<char>>>),
    path: Seq<char>,
)
    ensures
        found(files.push(entry), path) == if found(files, path) is Some {
            found(files, path)
        } else if entry.0 == path {
            Some(entry.1)
        } else {
            None
        },
    decreases files.len(),
{
    let longer = files.push(entry);
    if files.len() == 0 {
        assert(longer.drop_first() =~= files);
    } else {
        assert(longer[0] == files[0]);
        assert(longer.drop_first() =~= files.drop_first().push(entry));
        lemma_found_push(files.drop_first(), entry, path);
    }
}

/// The files that loading can consult.
pub struct Shelf {
    /// Path and content of each file, in the order in which they were put;
    /// the first entry under a path is the one that counts.
    pub files: Vec<(String, Option<Vec<String>>)>,
}

impl View for Shelf {
    type V = ShelfView;

    open spec fn view(&self) -> ShelfView {
        Map::new(
            |path: Seq<char>| found(self.files.deep_view(), path) is Some,
            |path: Seq<char>| found(self.files.deep_view(), path)->0,
        )
    }
}

impl Shelf {
    /// A shelf without files.
    pub fn new() -> (shelf: Shelf)
        ensures
            shelf@ == Map::<Seq<char>, Option<Seq<Seq<char>>>>::empty(),
    {
        let shelf = Shelf { files: Vec::new() };
        assert(shelf.files.deep_view() =~= Seq::empty());
        assert(shelf@ =~= Map::<Seq<char>, Option<Seq<Seq<char>>>>::empty());
        shelf
    }

    /// Whether the shelf has an entry under `path`.
    pub fn holds(&self, path: &String) -> (b: bool)
        ensures
            b == self@.dom().contains(path@),
    {
        self.entry(path).is_some()
    }

    /// The entry under `path`, if the shelf has one.
    pub fn entry(&self, path: &String) -> (r: Option<&Option<Vec<String>>>)
        ensures
            r is Some == self@.dom().contains(path@),
            r is Some ==> r->0.deep_view() == self@[path@],
    {
        let ghost all = self.files.deep_view();
        let mut i: usize = 0;
        assert(all.skip(0) =~= all);
        while i < self.files.len()
            invariant
                i <= self.files.len(),
                all == self.files.deep_view(),
                found(all, path@) == found(all.skip(i as int), path@),
            decreases self.files.len() - i,
        {
            proof {
                assert(all.skip(i as int)[0] == self.files[i as int].deep_view());
                assert(all.skip(i as int).drop_first() =~= all.skip(i + 1));
            }
            if self.files[i].0 == *path {
                return Some(&self.files[i].1);
            }
            i += 1;
        }
        None
    }

    /// The lines under `path`; `Missing` where the shelf has no entry for
    /// it, `Unreadable` where the file could not be read.
    pub fn lines(&self, path: &String) -> (r: Result<&Vec<String>, LoadError>)
        ensures
            match read(self@, path@) {
                Ok(lines) => r is Ok && r->Ok_0.deep_view() == lines,
                Err(e) => r is Err && r->Err_0@ == e,
            },
    {
        match self.entry(path) {
            None => Err(LoadError::Missing(path.clone())),
            Some(None) => Err(LoadError::Unreadable(path.clone())),
            Some(Some(lines)) => Ok(lines),
        }
    }

    /// Puts an entry under `path`, unless the shelf has one already.
    fn place(&mut self, path: String, content: Option<Vec<String>>)
        ensures
            final(self)@ == if old(self)@.dom().contains(path@) {
                old(self)@
            } else {
                old(self)@.insert(path@, content.deep_view())
            },
    {
        let ghost before = self.files.deep_view();
        let ghost entry = (path@, content.deep_view());
        self.files.push((path, content));
        proof {
            assert(self.files.deep_view() =~= before.push(entry));
            assert forall|p: Seq<char>| found(before.push(entry), p) == if found(before, p) is Some {
                found(before, p)
            } else if entry.0 == p {
                Some(entry.1)
            } else {
                None
            } by {
                lemma_found_push(before, entry, p);
            }
            if old(self)@.dom().contains(entry.0) {
                assert(self@ =~= old(self)@);
            } else {
                assert(self@ =~= old(self)@.insert(entry.0, entry.1));
            }
        }
    }

    /// Puts the lines of the file at `path` on the shelf. Where the shelf
    /// has an entry under `path` already, that entry stays.
    pub fn put(&mut self, path: String, lines: Vec<String>)
        ensures
            final(self)@ == if old(self)@.dom().contains(path@) {
                old(self)@
            } else {
                old(self)@.insert(path@, Some(lines.deep_view()))
            },
    {
        self.place(path, Some(lines));
    }

    /// Records that the file at `path` could not be read. Where the shelf
    /// has an entry under `path` already, that entry stays.
    pub fn put_unreadable(&mut self, path: String)
        ensures
            final(self)@ == if old(self)@.dom().contains(path@) {
                old(self)@
            } else {
                old(self)@.insert(path@, None)
            },
    {
        self.place(path, None);
    }
}

} // verus!
