//! Add, delete, search, list and prune.
use crate::bookmark::{storable, strings_view, Bookmark, BookmarkView};
use crate::path::{FsView, PathOps};
use crate::repository::IBookmarkRepository;
use crate::selector::{BookmarkSelector, Choice, SelectError};
use crate::store::{saved, views, without_path};
use vstd::prelude::*;

verus! {

/// Why a use case failed.
#[derive(Debug)]
pub enum UsecaseError {
    /// The store or the filesystem failed.
    Io(std::io::Error),
    /// The path to add does not exist.
    PathDoesNotExist(String),
    /// The path to add exists but is not a directory.
    NotADirectory(String),
    /// The interactive chooser failed.
    Interaction(SelectError),
}

/// The path named by an add request: a non-empty argument; `None` where the
/// current directory is to be used.
pub open spec fn given_path(path: Option<String>) -> Option<Seq<char>> {
    match path {
        Some(p) => if p@.len() > 0 {
            Some(p@)
        } else {
            None
        },
        None => None,
    }
}

/// What an add request meets on a filesystem held in memory.
pub enum AddVerdict {
    /// No path is given and the current directory cannot be determined.
    NoCurrentDir,
    /// The path to add does not exist.
    Missing(Seq<char>),
    /// The path to add exists but is not a directory.
    NotDirectory(Seq<char>),
    /// The path to add is a directory.
    Accepted(Seq<char>),
}

/// The path an add request validates on `f`: the given one, else the current
/// directory.
pub open spec fn target_path(path: Option<String>, f: FsView) -> Option<Seq<char>> {
    match given_path(path) {
        Some(p) => Some(p),
        None => f.current_dir,
    }
}

/// What an add request meets on `f`, existence tested before directory-ness.
pub open spec fn verdict(path: Option<String>, f: FsView) -> AddVerdict {
    match target_path(path, f) {
        None => AddVerdict::NoCurrentDir,
        Some(p) => if !f.existing.contains(p) {
            AddVerdict::Missing(p)
        } else if !f.directories.contains(p) {
            AddVerdict::NotDirectory(p)
        } else {
            AddVerdict::Accepted(p)
        },
    }
}

/// Whether the path of each bookmark of `bs` is among `existing`.
pub open spec fn presence(bs: Seq<BookmarkView>, existing: Set<Seq<char>>) -> Seq<bool> {
    bs.map_values(|b: BookmarkView| existing.contains(b.path))
}

/// The bookmark that an add request stores for the path `p`.
pub open spec fn added(p: Seq<char>, tags: Seq<String>) -> BookmarkView {
    BookmarkView { path: p, tags: strings_view(tags) }
}

/// The bookmarks of `bs` whose directory is missing, in order, where
/// `present[i]` tells whether the path of `bs[i]` exists.
pub open spec fn broken_of(bs: Seq<BookmarkView>, present: Seq<bool>) -> Seq<BookmarkView>
    decreases bs.len(),
{
    if bs.len() == 0 || present.len() == 0 {
        Seq::empty()
    } else if present.last() {
        broken_of(bs.drop_last(), present.drop_last())
    } else {
        broken_of(bs.drop_last(), present.drop_last()).push(bs.last())
    }
}

/// `bs` after deleting the path of each bookmark of `removed`, in turn.
pub open spec fn remove_all(bs: Seq<BookmarkView>, removed: Seq<BookmarkView>) -> Seq<
    BookmarkView,
>
    decreases removed.len(),
{
    if removed.len() == 0 {
        bs
    } else {
        without_path(remove_all(bs, removed.drop_last()), removed.last().path)
    }
}

/// Validates a path to add, existence first: a missing path is reported as
/// missing whatever else holds of it; an existing one must be a directory.
pub fn validate_target(path: String, present: bool, is_dir: bool) -> (r: Result<
    String,
    UsecaseError,
>)
    ensures
        !present ==> (r matches Err(UsecaseError::PathDoesNotExist(p)) && p@ == path@),
        present && !is_dir ==> (r matches Err(UsecaseError::NotADirectory(p)) && p@ == path@),
        present && is_dir ==> (r matches Ok(p) && p@ == path@),
{
    if !present {
        Err(UsecaseError::PathDoesNotExist(path))
    } else if !is_dir {
        Err(UsecaseError::NotADirectory(path))
    } else {
        Ok(path)
    }
}

/// Adds a directory, with tags: the given path, or the current directory where
/// none or an empty one is given. The path must exist and be a directory;
/// nothing is written otherwise. What is stored is the bookmark itself where it
/// can be written as one line and read back.
pub fn add_bookmark<R: IBookmarkRepository, P: PathOps>(
    bookmark_repo: &mut R,
    path_ops: &P,
    path: Option<String>,
    tags: Vec<String>,
) -> (r: Result<(), UsecaseError>)
    ensures
        (final(bookmark_repo).contents() is Some) == (old(bookmark_repo).contents() is Some),
        old(bookmark_repo).contents() is Some && r is Err ==> final(bookmark_repo).contents()
            == old(bookmark_repo).contents(),
        given_path(path) is Some && r is Err && r->Err_0 is PathDoesNotExist
            ==> r->Err_0->PathDoesNotExist_0@ == given_path(path)->0,
        given_path(path) is Some && r is Err && r->Err_0 is NotADirectory
            ==> r->Err_0->NotADirectory_0@ == given_path(path)->0,
        !(r matches Err(UsecaseError::Interaction(_))),
        old(bookmark_repo).contents() is Some && r is Ok ==> exists|p: Seq<char>|
            (given_path(path) is Some ==> p == given_path(path)->0) && (storable(
                #[trigger] added(p, tags@),
            ) ==> final(bookmark_repo).contents() == Some(
                saved(old(bookmark_repo).contents()->0, added(p, tags@)),
            )),
        path_ops.fs() matches Some(f) ==> match verdict(path, f) {
            AddVerdict::NoCurrentDir => (r matches Err(UsecaseError::Io(_))),
            AddVerdict::Missing(p) => (r matches Err(UsecaseError::PathDoesNotExist(q)) && q@ == p),
            AddVerdict::NotDirectory(p) => (r matches Err(UsecaseError::NotADirectory(q)) && q@
                == p),
            AddVerdict::Accepted(p) => (old(bookmark_repo).contents() is Some ==> r is Ok && (
            storable(added(p, tags@)) ==> final(bookmark_repo).contents() == Some(
                saved(old(bookmark_repo).contents()->0, added(p, tags@)),
            ))),
        },
{
    let given: Option<String> = match path {
        Some(p) => if p.as_str().unicode_len() > 0 {
            Some(p)
        } else {
            None
        },
        None => None,
    };
    let target = match given {
        Some(p) => p,
        None => match path_ops.get_current_dir() {
            Ok(d) => d,
            Err(e) => return Err(UsecaseError::Io(e)),
        },
    };
    let present = path_ops.path_exists(target.as_str());
    let is_dir = if present {
        path_ops.is_dir(target.as_str())
    } else {
        false
    };
    let checked = match validate_target(target, present, is_dir) {
        Ok(p) => p,
        Err(e) => return Err(e),
    };
    let bookmark = Bookmark::new(checked.as_str(), tags);
    let ghost before = bookmark_repo.contents();
    match bookmark_repo.save(&bookmark) {
        Ok(()) => {
            proof {
                if before is Some {
                    assert(bookmark@ == added(checked@, tags@));
                }
            }
            Ok(())
        },
        Err(e) => Err(UsecaseError::Io(e)),
    }
}

/// The index that a chooser's answer picks in a list of `len` items, if any.
pub open spec fn picked(len: int, c: Choice) -> Option<int> {
    match c {
        Choice::Index(i) => if (i as int) < len {
            Some(i as int)
        } else {
            None
        },
        _ => None,
    }
}

/// A chooser's answer to a non-empty list is a failure.
pub open spec fn fails_on(len: int, c: Choice) -> bool {
    len > 0 && c == Choice::Failure
}

/// `after` is `before`, or `before` without the path of one of its bookmarks.
pub open spec fn at_most_one_path_removed(before: Seq<BookmarkView>, after: Seq<BookmarkView>) -> bool {
    after == before || exists|i: int|
        0 <= i < before.len() && after == without_path(before, #[trigger] before[i].path)
}

/// Relies on console::Emoji's Display impl: it writes `symbol` where the
/// terminal takes emoji, and `fallback` otherwise.
#[verifier::external_body]
fn emoji(symbol: &str, fallback: &str) -> (r: String)
    ensures
        r@ == symbol@ || r@ == fallback@,
{
    format!("{}", console::Emoji(symbol, fallback))
}

/// Asks the chooser for one of the bookmarks, under the bookmark prompt.
pub fn select_bookmark<S: BookmarkSelector>(selector: &S, bookmarks: &Vec<Bookmark>) -> (r: Result<
    Option<Bookmark>,
    SelectError,
>)
    ensures
        bookmarks@.len() == 0 ==> r matches Ok(None),
        r matches Ok(Some(b)) ==> exists|i: int|
            0 <= i < bookmarks@.len() && #[trigger] bookmarks@[i]@ == b@,
        selector.choice() is Some ==> (r is Err <==> fails_on(
            bookmarks@.len() as int,
            selector.choice()->0,
        )),
        selector.choice() is Some ==> match picked(bookmarks@.len() as int, selector.choice()->0) {
            Some(i) => (r matches Ok(Some(b)) && b@ == bookmarks@[i]@),
            None => (r is Ok ==> r->Ok_0 is None),
        },
{
    let mut prompt = emoji("\u{1f516}", "");
    prompt.append(" Select a bookmark (type to filter): ");
    selector.select(bookmarks.as_slice(), prompt)
}

/// Lets the user pick a bookmark and deletes it; with no bookmarks, or no
/// pick, nothing changes.
pub fn delete_bookmark<R: IBookmarkRepository, S: BookmarkSelector>(
    bookmark_repo: &mut R,
    selector: &S,
) -> (r: Result<(), UsecaseError>)
    ensures
        (final(bookmark_repo).contents() is Some) == (old(bookmark_repo).contents() is Some),
        old(bookmark_repo).contents() is Some ==> at_most_one_path_removed(
            old(bookmark_repo).contents()->0,
            final(bookmark_repo).contents()->0,
        ),
        old(bookmark_repo).contents() is Some && old(bookmark_repo).contents()->0.len() == 0 ==> r is Ok
            && final(bookmark_repo).contents() == old(bookmark_repo).contents(),
        selector.choice() is Some && old(bookmark_repo).contents() is Some ==> (r is Err
            <==> fails_on(old(bookmark_repo).contents()->0.len() as int, selector.choice()->0)),
        selector.choice() is Some && old(bookmark_repo).contents() is Some
            ==> final(bookmark_repo).contents() == Some(
            match picked(old(bookmark_repo).contents()->0.len() as int, selector.choice()->0) {
                Some(i) => without_path(
                    old(bookmark_repo).contents()->0,
                    old(bookmark_repo).contents()->0[i].path,
                ),
                None => old(bookmark_repo).contents()->0,
            },
        ),
{
    let ghost before = bookmark_repo.contents();
    let bookmarks = match bookmark_repo.find_all() {
        Ok(bs) => bs,
        Err(e) => return Err(UsecaseError::Io(e)),
    };
    let chosen = match select_bookmark(selector, &bookmarks) {
        Ok(c) => c,
        Err(e) => return Err(UsecaseError::Interaction(e)),
    };
    match chosen {
        Some(b) => {
            let ghost i = choose|i: int| 0 <= i < bookmarks@.len() && #[trigger] bookmarks@[i]@ == b@;
            match bookmark_repo.delete(b.get_path()) {
                Ok(()) => {
                    proof {
                        if before is Some {
                            assert(views(bookmarks@)[i] == bookmarks@[i]@);
                            assert(before->0[i].path == b@.path);
                        }
                    }
                    Ok(())
                },
                Err(e) => Err(UsecaseError::Io(e)),
            }
        },
        None => Ok(()),
    }
}

/// Lets the user pick a bookmark and returns it; nothing changes.
pub fn search_bookmark<R: IBookmarkRepository, S: BookmarkSelector>(
    bookmark_repo: &mut R,
    selector: &S,
) -> (r: Result<Option<Bookmark>, UsecaseError>)
    ensures
        final(bookmark_repo).contents() == old(bookmark_repo).contents(),
        old(bookmark_repo).contents() is Some ==> (r matches Ok(Some(b)) ==> exists|i: int|
            0 <= i < old(bookmark_repo).contents()->0.len() && #[trigger] old(bookmark_repo).contents()->0[i] == b@),
        old(bookmark_repo).contents() is Some && old(bookmark_repo).contents()->0.len() == 0 ==> r matches Ok(None),
        selector.choice() is Some && old(bookmark_repo).contents() is Some ==> (r is Err
            <==> fails_on(old(bookmark_repo).contents()->0.len() as int, selector.choice()->0)),
        selector.choice() is Some && old(bookmark_repo).contents() is Some ==> match picked(
            old(bookmark_repo).contents()->0.len() as int,
            selector.choice()->0,
        ) {
            Some(i) => (r matches Ok(Some(b)) && b@ == old(bookmark_repo).contents()->0[i]),
            None => (r is Ok ==> r->Ok_0 is None),
        },
{
    let ghost before = bookmark_repo.contents();
    let bookmarks = match bookmark_repo.find_all() {
        Ok(bs) => bs,
        Err(e) => return Err(UsecaseError::Io(e)),
    };
    match select_bookmark(selector, &bookmarks) {
        Ok(c) => {
            proof {
                if before is Some && c is Some {
                    let i = choose|i: int|
                        0 <= i < bookmarks@.len() && #[trigger] bookmarks@[i]@ == c->0@;
                    assert(views(bookmarks@)[i] == bookmarks@[i]@);
                }
            }
            Ok(c)
        },
        Err(e) => Err(UsecaseError::Interaction(e)),
    }
}

/// All bookmarks, in stored order.
pub fn list_bookmarks<R: IBookmarkRepository>(bookmark_repo: &mut R) -> (r: Result<
    Vec<Bookmark>,
    UsecaseError,
>)
    ensures
        final(bookmark_repo).contents() == old(bookmark_repo).contents(),
        old(bookmark_repo).contents() is Some ==> r is Ok && views(r->Ok_0@) == old(bookmark_repo).contents()->0,
{
    match bookmark_repo.find_all() {
        Ok(bs) => Ok(bs),
        Err(e) => Err(UsecaseError::Io(e)),
    }
}

/// The bookmarks whose directory is missing, in order, where `present[i]`
/// tells whether the path of `bookmarks[i]` exists.
pub fn prune_plan(bookmarks: &Vec<Bookmark>, present: &Vec<bool>) -> (r: Vec<Bookmark>)
    requires
        bookmarks@.len() == present@.len(),
    ensures
        views(r@) == broken_of(views(bookmarks@), present@),
{
    let ghost vs = views(bookmarks@);
    let mut out: Vec<Bookmark> = Vec::new();
    let mut i: usize = 0;
    while i < bookmarks.len()
        invariant
            i <= bookmarks.len(),
            bookmarks@.len() == present@.len(),
            vs == views(bookmarks@),
            views(out@) == broken_of(vs.subrange(0, i as int), present@.subrange(0, i as int)),
        decreases bookmarks.len() - i,
    {
        proof {
            assert(vs.subrange(0, i as int + 1).drop_last() =~= vs.subrange(0, i as int));
            assert(present@.subrange(0, i as int + 1).drop_last() =~= present@.subrange(
                0,
                i as int,
            ));
        }
        if !present[i] {
            let b = bookmarks[i].clone();
            let ghost before = out@;
            out.push(b);
            proof {
                assert(views(out@) =~= views(before).push(vs[i as int]));
            }
        }
        i = i + 1;
    }
    proof {
        assert(vs.subrange(0, bookmarks.len() as int) =~= vs);
        assert(present@.subrange(0, bookmarks.len() as int) =~= present@);
    }
    out
}

/// Deletes every bookmark whose directory no longer exists, and returns those
/// deleted, in stored order. The list is read once, before any deletion.
pub fn prune_bookmarks<R: IBookmarkRepository, P: PathOps>(
    bookmark_repo: &mut R,
    path_ops: &P,
) -> (r: Result<Vec<Bookmark>, UsecaseError>)
    ensures
        (final(bookmark_repo).contents() is Some) == (old(bookmark_repo).contents() is Some),
        old(bookmark_repo).contents() is Some ==> r is Ok && (exists|present: Seq<bool>|
            present.len() == old(bookmark_repo).contents()->0.len() && views(r->Ok_0@)
                == #[trigger] broken_of(old(bookmark_repo).contents()->0, present))
            && final(bookmark_repo).contents() == Some(
            remove_all(old(bookmark_repo).contents()->0, views(r->Ok_0@)),
        ),
        path_ops.fs() is Some && old(bookmark_repo).contents() is Some ==> views(r->Ok_0@)
            == broken_of(
            old(bookmark_repo).contents()->0,
            presence(old(bookmark_repo).contents()->0, path_ops.fs()->0.existing),
        ),
{
    let ghost initial = bookmark_repo.contents();
    let bookmarks = match bookmark_repo.find_all() {
        Ok(bs) => bs,
        Err(e) => return Err(UsecaseError::Io(e)),
    };
    let mut present: Vec<bool> = Vec::new();
    let mut i: usize = 0;
    while i < bookmarks.len()
        invariant
            i <= bookmarks.len(),
            present@.len() == i,
            path_ops.fs() is Some ==> forall|k: int|
                0 <= k < i ==> #[trigger] present@[k] == path_ops.fs()->0.existing.contains(
                    bookmarks@[k]@.path,
                ),
            bookmark_repo.contents() == initial,
            initial == old(bookmark_repo).contents(),
            initial is Some ==> views(bookmarks@) == initial->0,
        decreases bookmarks.len() - i,
    {
        present.push(!bookmarks[i].is_broken(path_ops));
        i = i + 1;
    }
    proof {
        if path_ops.fs() is Some {
            assert(present@ =~= presence(views(bookmarks@), path_ops.fs()->0.existing));
        }
    }
    let broken = prune_plan(&bookmarks, &present);
    let ghost gone = views(broken@);
    let mut k: usize = 0;
    while k < broken.len()
        invariant
            k <= broken.len(),
            gone == views(broken@),
            initial is Some ==> views(bookmarks@) == initial->0,
            present@.len() == bookmarks@.len(),
            gone == broken_of(views(bookmarks@), present@),
            initial == old(bookmark_repo).contents(),
            (bookmark_repo.contents() is Some) == (initial is Some),
            initial is Some ==> bookmark_repo.contents() == Some(
                remove_all(initial->0, gone.subrange(0, k as int)),
            ),
        decreases broken.len() - k,
    {
        match bookmark_repo.delete(broken[k].get_path()) {
            Ok(()) => {},
            Err(e) => return Err(UsecaseError::Io(e)),
        }
        proof {
            assert(gone.subrange(0, k as int + 1).drop_last() =~= gone.subrange(0, k as int));
        }
        k = k + 1;
    }
    proof {
        assert(gone.subrange(0, broken.len() as int) =~= gone);
    }
    Ok(broken)
}

} // verus!
