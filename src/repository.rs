//! The repository the use cases work through.
use crate::bookmark::{storable, Bookmark, BookmarkView};
use crate::dao::IBookmarkDao;
use crate::store::{clone_all, remove_path, saved, upsert, views, without_path};
use vstd::prelude::*;

verus! {

/// The bookmarks as the use cases see them: save with update on re-save,
/// delete by path, and read all in order.
pub trait IBookmarkRepository {
    /// The stored bookmarks in order, where they are held in memory; `None`
    /// where they live outside the program, in a file the verifier cannot see.
    spec fn contents(&self) -> Option<Seq<BookmarkView>>;

    /// Saves a bookmark; one with the same path is replaced. A bookmark that
    /// cannot be written as one line and read back as itself (a path with
    /// whitespace in it) is stored as what its line reads as.
    fn save(&mut self, bookmark: &Bookmark) -> (r: Result<(), std::io::Error>)
        ensures
            (final(self).contents() is Some) == (old(self).contents() is Some),
            old(self).contents() is Some ==> r is Ok,
            old(self).contents() is Some && storable(bookmark@) ==> final(self).contents() == Some(
                saved(old(self).contents()->0, bookmark@),
            ),
    ;

    /// Deletes every bookmark with the given path; none is no error.
    fn delete(&mut self, path: &str) -> (r: Result<(), std::io::Error>)
        ensures
            (final(self).contents() is Some) == (old(self).contents() is Some),
            old(self).contents() is Some ==> r is Ok && final(self).contents() == Some(
                without_path(old(self).contents()->0, path@),
            ),
    ;

    /// All stored bookmarks, in stored order.
    fn find_all(&mut self) -> (r: Result<Vec<Bookmark>, std::io::Error>)
        ensures
            final(self).contents() == old(self).contents(),
            old(self).contents() is Some ==> r is Ok && views(r->Ok_0@) == old(self).contents()->0,
    ;
}

/// The repository over a bookmark store.
pub struct BookmarkRepository<B: IBookmarkDao> {
    dao: B,
}

impl<B: IBookmarkDao> BookmarkRepository<B> {
    pub fn new(dao: B) -> (r: Self)
        ensures
            r.contents() == dao.contents(),
    {
        Self { dao }
    }
}

impl<B: IBookmarkDao> IBookmarkRepository for BookmarkRepository<B> {
    closed spec fn contents(&self) -> Option<Seq<BookmarkView>> {
        self.dao.contents()
    }

    fn save(&mut self, bookmark: &Bookmark) -> (r: Result<(), std::io::Error>) {
        self.dao.save(bookmark)
    }

    fn delete(&mut self, path: &str) -> (r: Result<(), std::io::Error>) {
        self.dao.delete(path)
    }

    fn find_all(&mut self) -> (r: Result<Vec<Bookmark>, std::io::Error>) {
        self.dao.find_all()
    }
}

/// Bookmarks held in memory, for use in place of a stored repository.
pub struct MockBookmarkRepository {
    bookmarks: Vec<Bookmark>,
}

impl MockBookmarkRepository {
    pub fn new(bookmarks: &[Bookmark]) -> (r: Self)
        ensures
            r.contents() == Some(views(bookmarks@)),
    {
        Self { bookmarks: clone_all(bookmarks) }
    }
}

impl IBookmarkRepository for MockBookmarkRepository {
    closed spec fn contents(&self) -> Option<Seq<BookmarkView>> {
        Some(views(self.bookmarks@))
    }

    fn save(&mut self, bookmark: &Bookmark) -> (r: Result<(), std::io::Error>)
        ensures
            final(self).contents() == Some(saved(old(self).contents()->0, bookmark@)),
    {
        self.bookmarks = upsert(&self.bookmarks, bookmark);
        Ok(())
    }

    fn delete(&mut self, path: &str) -> (r: Result<(), std::io::Error>) {
        self.bookmarks = remove_path(&self.bookmarks, path);
        Ok(())
    }

    fn find_all(&mut self) -> (r: Result<Vec<Bookmark>, std::io::Error>) {
        Ok(clone_all(self.bookmarks.as_slice()))
    }
}

} // verus!
