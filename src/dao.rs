//! Bookmark stores: one over line storage, one in memory.
use crate::bookmark::{
    lemma_view_round_trip, line_of, parse_line, storable, strings_view, Bookmark, BookmarkView,
};
use crate::storage::Storage;
use crate::store::{
    clone_all, contains_path, format_lines, has_path, lemma_delete_absent, lemma_lines_round_trip,
    lemma_parsed_stable, lemma_saved_stable, lemma_without_path_stable, lines_of, parse_lines,
    parsed, remove_path, saved, upsert, views, without_path,
};
use vstd::prelude::*;

verus! {

/// Access to the stored bookmarks: save with update on re-save, delete by
/// path, and read all in order.
pub trait IBookmarkDao {
    /// The stored bookmarks in order, where they are held in memory; `None`
    /// where they live outside the program, in a file the verifier cannot see.
    spec fn contents(&self) -> Option<Seq<BookmarkView>>;

    /// Saves a bookmark; one with the same path is replaced. A bookmark that
    /// cannot be written as one line and read back as itself (a path with
    /// whitespace in it) is stored as what its line reads as.
    fn save(&mut self, bookmark: &Bookmark) -> (r: Result<(), std::io::Error>)
        ensures
            (final(self).contents() is Some) == (old(self).contents() is Some),
            old(self).contents() is Some ==> r is Ok,
            old(self).contents() is Some && storable(bookmark@) ==> final(self).contents() == Some(
                saved(old(self).contents()->0, bookmark@),
            ),
    ;

    /// Deletes every bookmark with the given path; none is no error.
    fn delete(&mut self, path: &str) -> (r: Result<(), std::io::Error>)
        ensures
            (final(self).contents() is Some) == (old(self).contents() is Some),
            old(self).contents() is Some ==> r is Ok && final(self).contents() == Some(
                without_path(old(self).contents()->0, path@),
            ),
    ;

    /// All stored bookmarks, in stored order.
    fn find_all(&mut self) -> (r: Result<Vec<Bookmark>, std::io::Error>)
        ensures
            final(self).contents() == old(self).contents(),
            old(self).contents() is Some ==> r is Ok && views(r->Ok_0@) == old(self).contents()->0,
    ;
}

/// How a save changes the stored lines.
pub enum StoreWrite {
    /// One line is added at the end.
    Append(String),
    /// All lines are replaced by these.
    Overwrite(Vec<String>),
}

/// What saving `bookmark` writes, given the stored bookmarks: the new line at
/// the end where no stored bookmark has its path, else all lines rewritten
/// with the old entry replaced.
pub fn plan_save(bookmarks: &Vec<Bookmark>, bookmark: &Bookmark) -> (r: StoreWrite)
    ensures
        !has_path(views(bookmarks@), bookmark@.path) ==> (r matches StoreWrite::Append(line)
            && line@ == line_of(bookmark@.path, bookmark@.tags)),
        has_path(views(bookmarks@), bookmark@.path) ==> (r matches StoreWrite::Overwrite(lines)
            && strings_view(lines@) == lines_of(saved(views(bookmarks@), bookmark@))),
{
    if contains_path(bookmarks, bookmark.get_path()) {
        let updated = upsert(bookmarks, bookmark);
        StoreWrite::Overwrite(format_lines(&updated))
    } else {
        StoreWrite::Append(bookmark.to_string())
    }
}

/// The stored lines after deleting `path`, given the stored bookmarks.
pub fn plan_delete(bookmarks: &Vec<Bookmark>, path: &str) -> (r: Vec<String>)
    ensures
        strings_view(r@) == lines_of(without_path(views(bookmarks@), path@)),
{
    let remaining = remove_path(bookmarks, path);
    format_lines(&remaining)
}

/// Bookmarks kept in a line storage, one line each.
pub struct BookmarkDao<S: Storage> {
    storage: S,
}

/// The bookmarks that a storage's lines describe, where the lines are known.
pub open spec fn described<S: Storage>(storage: S) -> Option<Seq<BookmarkView>> {
    match storage.stored() {
        Some(lines) => Some(parsed(lines)),
        None => None,
    }
}

impl<S: Storage> BookmarkDao<S> {
    pub fn new(storage: S) -> (r: Self)
        ensures
            r.contents() == described(storage),
    {
        Self { storage }
    }
}

impl<S: Storage> IBookmarkDao for BookmarkDao<S> {
    closed spec fn contents(&self) -> Option<Seq<BookmarkView>> {
        described(self.storage)
    }

    fn save(&mut self, bookmark: &Bookmark) -> (r: Result<(), std::io::Error>) {
        let ghost before = self.storage.stored();
        let bookmarks = match self.find_all() {
            Ok(bs) => bs,
            Err(e) => return Err(e),
        };
        match plan_save(&bookmarks, bookmark) {
            StoreWrite::Append(line) => {
                let r = self.storage.append(line.as_str());
                proof {
                    if before is Some {
                        let ls = before->0;
                        assert(parsed(ls.push(line@)) =~= parsed(ls).push(parse_line(line@)));
                        if storable(bookmark@) {
                            lemma_view_round_trip(bookmark@);
                            lemma_delete_absent(parsed(ls), bookmark@.path);
                        }
                    }
                }
                r
            },
            StoreWrite::Overwrite(lines) => {
                let r = self.storage.overwrite(lines.as_slice());
                proof {
                    if before is Some && storable(bookmark@) {
                        lemma_parsed_stable(before->0);
                        lemma_saved_stable(parsed(before->0), bookmark@);
                        lemma_lines_round_trip(saved(parsed(before->0), bookmark@));
                    }
                }
                r
            },
        }
    }

    fn delete(&mut self, path: &str) -> (r: Result<(), std::io::Error>) {
        let ghost before = self.storage.stored();
        let bookmarks = match self.find_all() {
            Ok(bs) => bs,
            Err(e) => return Err(e),
        };
        let lines = plan_delete(&bookmarks, path);
        let r = self.storage.overwrite(lines.as_slice());
        proof {
            if before is Some {
                lemma_parsed_stable(before->0);
                lemma_without_path_stable(parsed(before->0), path@);
                lemma_lines_round_trip(without_path(parsed(before->0), path@));
            }
        }
        r
    }

    fn find_all(&mut self) -> (r: Result<Vec<Bookmark>, std::io::Error>) {
        let mut lines: Vec<String> = Vec::new();
        match self.storage.read_lines(&mut lines) {
            Ok(()) => Ok(parse_lines(&lines)),
            Err(e) => Err(e),
        }
    }
}

/// Bookmarks held in memory, for use in place of a file.
pub struct MockBookmarkDao {
    bookmarks: Vec<Bookmark>,
}

impl MockBookmarkDao {
    pub fn new(bookmarks: &Vec<Bookmark>) -> (r: Self)
        ensures
            r.contents() == Some(views(bookmarks@)),
    {
        Self { bookmarks: clone_all(bookmarks.as_slice()) }
    }
}

impl IBookmarkDao for MockBookmarkDao {
    closed spec fn contents(&self) -> Option<Seq<BookmarkView>> {
        Some(views(self.bookmarks@))
    }

    fn save(&mut self, bookmark: &Bookmark) -> (r: Result<(), std::io::Error>)
        ensures
            final(self).contents() == Some(saved(old(self).contents()->0, bookmark@)),
    {
        self.bookmarks = upsert(&self.bookmarks, bookmark);
        Ok(())
    }

    fn delete(&mut self, path: &str) -> (r: Result<(), std::io::Error>) {
        self.bookmarks = remove_path(&self.bookmarks, path);
        Ok(())
    }

    fn find_all(&mut self) -> (r: Result<Vec<Bookmark>, std::io::Error>) {
        Ok(clone_all(self.bookmarks.as_slice()))
    }
}

} // verus!
