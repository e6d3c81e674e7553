//! Choosing one bookmark of a list.
use crate::bookmark::Bookmark;
use vstd::prelude::*;

verus! {

/// A failure of the interactive chooser: no terminal, or the user aborted.
#[derive(Debug)]
pub struct SelectError {
    pub message: String,
}

/// The interactive chooser: shows the labels under the prompt, lets the user
/// narrow them by typing, and returns the index of the one picked.
pub trait Selector {
    fn select(&self, items: &[String], prompt: &str) -> Result<usize, SelectError>;
}

/// The answer a chooser gives to a non-empty list.
pub enum Choice {
    /// The item at this index, or none where the index is past the end.
    Index(usize),
    /// No item.
    Nothing,
    /// A failure.
    Failure,
}

/// Picks one bookmark of a list, or none.
pub trait BookmarkSelector {
    /// The answer this chooser gives, where it is set in advance; `None` for a
    /// person at a terminal.
    open spec fn choice(&self) -> Option<Choice> {
        None
    }

    fn select(&self, items: &[Bookmark], prompt: String) -> (r: Result<
        Option<Bookmark>,
        SelectError,
    >)
        ensures
            items@.len() == 0 ==> r matches Ok(None),
            r matches Ok(Some(b)) ==> exists|i: int| 0 <= i < items@.len() && #[trigger] items@[i]@ == b@,
            items@.len() > 0 && self.choice() == Some(Choice::Failure) ==> r is Err,
            items@.len() > 0 && self.choice() == Some(Choice::Nothing) ==> r matches Ok(None),
            self.choice() matches Some(Choice::Index(i)) ==> (i < items@.len() ==> (r matches Ok(
                Some(b),
            ) && b@ == items@[i as int]@)),
            self.choice() matches Some(Choice::Index(i)) ==> (i >= items@.len() ==> r matches Ok(
                None,
            )),
    ;
}

/// The bookmark at `index`, or none where `index` is past the end.
pub fn pick(items: &[Bookmark], index: usize) -> (r: Option<Bookmark>)
    ensures
        index < items@.len() ==> (r matches Some(b) && b@ == items@[index as int]@),
        index >= items@.len() ==> r is None,
{
    if index < items.len() {
        Some(items[index].clone())
    } else {
        None
    }
}

/// The label shown for each bookmark: its stored line.
pub fn labels(items: &[Bookmark]) -> (r: Vec<String>)
    ensures
        r@.len() == items@.len(),
        forall|i: int| 0 <= i < items@.len() ==> #[trigger] r@[i]@ == crate::bookmark::line_of(
            items@[i]@.path,
            items@[i]@.tags,
        ),
{
    let mut out: Vec<String> = Vec::new();
    let mut i: usize = 0;
    while i < items.len()
        invariant
            i <= items.len(),
            out@.len() == i,
            forall|k: int| 0 <= k < i ==> #[trigger] out@[k]@ == crate::bookmark::line_of(
                items@[k]@.path,
                items@[k]@.tags,
            ),
        decreases items.len() - i,
    {
        out.push(items[i].to_string());
        i = i + 1;
    }
    out
}

/// Chooses a bookmark through an interactive chooser, shown each bookmark's
/// stored line; an empty list is answered at once, without the chooser.
pub struct FuzzyBookmarkSelector<S: Selector> {
    widget: S,
}

impl<S: Selector> FuzzyBookmarkSelector<S> {
    pub fn new(widget: S) -> Self {
        Self { widget }
    }
}

impl<S: Selector> BookmarkSelector for FuzzyBookmarkSelector<S> {
    fn select(&self, items: &[Bookmark], prompt: String) -> (r: Result<
        Option<Bookmark>,
        SelectError,
    >) {
        if items.len() == 0 {
            return Ok(None);
        }
        let shown = labels(items);
        match self.widget.select(shown.as_slice(), prompt.as_str()) {
            Ok(index) => Ok(pick(items, index)),
            Err(e) => Err(e),
        }
    }
}

/// A chooser with a set answer: the index to pick, none, or a failure.
pub struct MockBookmarkSelector {
    pub answer: Result<Option<usize>, String>,
}

impl MockBookmarkSelector {
    pub fn new(answer: Result<Option<usize>, String>) -> (r: Self)
        ensures
            r.answer == answer,
    {
        Self { answer }
    }
}

impl BookmarkSelector for MockBookmarkSelector {
    open spec fn choice(&self) -> Option<Choice> {
        Some(
            match self.answer {
                Ok(Some(i)) => Choice::Index(i),
                Ok(None) => Choice::Nothing,
                Err(_) => Choice::Failure,
            },
        )
    }

    fn select(&self, items: &[Bookmark], _prompt: String) -> (r: Result<
        Option<Bookmark>,
        SelectError,
    >) {
        if items.len() == 0 {
            return Ok(None);
        }
        match &self.answer {
            Ok(Some(i)) => Ok(pick(items, *i)),
            Ok(None) => Ok(None),
            Err(m) => Err(SelectError { message: m.clone() }),
        }
    }
}

} // verus!
