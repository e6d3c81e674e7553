//! Line-oriented storage, and a store of bare paths kept in it.
use crate::bookmark::{strings_view, Bookmark, BookmarkView};
use crate::path::contains_text;
use crate::store::views;
use vstd::prelude::*;
use vstd::seq_lib::{to_multiset_build, to_multiset_insert};

verus! {

/// std::io::Error, carried through opaque: the failure of a storage operation.
#[verifier::external_type_specification]
#[verifier::external_body]
pub struct ExIoError(std::io::Error);

/// Raw line-oriented persistence over a single text file: read all lines in
/// file order, append one line, or replace all lines.
pub trait Storage {
    /// The stored lines, where they are held in memory; `None` where they live
    /// outside the program, in a file the verifier cannot see.
    open spec fn stored(&self) -> Option<Seq<Seq<char>>> {
        None
    }

    /// Adds the stored lines, in order, to the end of `lines`.
    fn read_lines(&self, lines: &mut Vec<String>) -> (r: Result<(), std::io::Error>)
        ensures
            self.stored() matches Some(s) ==> r is Ok && strings_view(final(lines)@)
                == strings_view(old(lines)@) + s,
    ;

    /// Adds one line at the end.
    fn append(&mut self, line: &str) -> (r: Result<(), std::io::Error>)
        ensures
            (final(self).stored() is Some) == (old(self).stored() is Some),
            old(self).stored() matches Some(s) ==> r is Ok && final(self).stored() == Some(
                s.push(line@),
            ),
    ;

    /// Replaces all lines by `lines`.
    fn overwrite(&mut self, lines: &[String]) -> (r: Result<(), std::io::Error>)
        ensures
            (final(self).stored() is Some) == (old(self).stored() is Some),
            old(self).stored() is Some ==> r is Ok && final(self).stored() == Some(
                strings_view(lines@),
            ),
    ;
}

/// A storage held in memory, one string per line.
pub struct MemoryStorage {
    pub lines: Vec<String>,
}

impl MemoryStorage {
    pub fn new(lines: Vec<String>) -> (r: Self)
        ensures
            r.lines@ == lines@,
    {
        Self { lines }
    }
}

impl Storage for MemoryStorage {
    open spec fn stored(&self) -> Option<Seq<Seq<char>>> {
        Some(strings_view(self.lines@))
    }

    fn read_lines(&self, lines: &mut Vec<String>) -> (r: Result<(), std::io::Error>) {
        let mut i: usize = 0;
        let ghost start = strings_view(lines@);
        while i < self.lines.len()
            invariant
                i <= self.lines.len(),
                strings_view(lines@) == start + strings_view(self.lines@).subrange(0, i as int),
            decreases self.lines.len() - i,
        {
            let l = self.lines[i].clone();
            let ghost before = lines@;
            lines.push(l);
            proof {
                assert(strings_view(lines@) =~= strings_view(before).push(l@));
                assert(strings_view(lines@) =~= start + strings_view(self.lines@).subrange(
                    0,
                    i as int + 1,
                ));
            }
            i = i + 1;
        }
        proof {
            assert(strings_view(self.lines@).subrange(0, self.lines.len() as int) =~= strings_view(
                self.lines@,
            ));
        }
        Ok(())
    }

    fn append(&mut self, line: &str) -> (r: Result<(), std::io::Error>) {
        let ghost before = self.lines@;
        self.lines.push(line.to_owned());
        proof {
            assert(strings_view(self.lines@) =~= strings_view(before).push(line@));
        }
        Ok(())
    }

    fn overwrite(&mut self, lines: &[String]) -> (r: Result<(), std::io::Error>) {
        let mut out: Vec<String> = Vec::new();
        let mut i: usize = 0;
        while i < lines.len()
            invariant
                i <= lines.len(),
                strings_view(out@) == strings_view(lines@).subrange(0, i as int),
            decreases lines.len() - i,
        {
            let l = lines[i].clone();
            let ghost before = out@;
            out.push(l);
            proof {
                assert(strings_view(out@) =~= strings_view(before).push(l@));
                assert(strings_view(out@) =~= strings_view(lines@).subrange(0, i as int + 1));
            }
            i = i + 1;
        }
        proof {
            assert(strings_view(lines@).subrange(0, lines.len() as int) =~= strings_view(lines@));
        }
        self.lines = out;
        Ok(())
    }
}

/// `a` comes before `b`, or equals it, in the order of their characters' code points.
pub open spec fn text_le(a: Seq<char>, b: Seq<char>) -> bool
    decreases a.len(),
{
    if a.len() == 0 {
        true
    } else if b.len() == 0 {
        false
    } else if (a[0] as u32) < (b[0] as u32) {
        true
    } else if (a[0] as u32) > (b[0] as u32) {
        false
    } else {
        text_le(a.drop_first(), b.drop_first())
    }
}

proof fn lemma_text_le_total(a: Seq<char>, b: Seq<char>)
    ensures
        text_le(a, b) || text_le(b, a),
    decreases a.len(),
{
    if a.len() > 0 && b.len() > 0 && a[0] as u32 == b[0] as u32 {
        lemma_text_le_total(a.drop_first(), b.drop_first());
    }
}

/// Each bookmark's path is at most the next one's.
pub open spec fn sorted_by_path(bs: Seq<BookmarkView>) -> bool {
    forall|i: int| 0 <= i < bs.len() - 1 ==> text_le(#[trigger] bs[i].path, bs[i + 1].path)
}

/// The distinct strings of `s`, each where it first occurs.
pub open spec fn distinct(s: Seq<Seq<char>>) -> Seq<Seq<char>>
    decreases s.len(),
{
    if s.len() == 0 {
        s
    } else if distinct(s.drop_last()).contains(s.last()) {
        distinct(s.drop_last())
    } else {
        distinct(s.drop_last()).push(s.last())
    }
}

/// Whether `a` comes before `b`, or equals it, by code points.
pub fn text_less_eq(a: &str, b: &str) -> (r: bool)
    ensures
        r == text_le(a@, b@),
{
    let n = a.unicode_len();
    let m = b.unicode_len();
    let mut i: usize = 0;
    proof {
        assert(a@.subrange(0, n as int) =~= a@);
        assert(b@.subrange(0, m as int) =~= b@);
    }
    while i < n && i < m
        invariant
            n == a@.len(),
            m == b@.len(),
            i <= n,
            i <= m,
            text_le(a@, b@) == text_le(a@.subrange(i as int, n as int), b@.subrange(i as int, m as int)),
        decreases n - i,
    {
        let x = a.get_char(i);
        let y = b.get_char(i);
        let ghost ra = a@.subrange(i as int, n as int);
        let ghost rb = b@.subrange(i as int, m as int);
        proof {
            assert(ra[0] == x);
            assert(rb[0] == y);
        }
        if (x as u32) != (y as u32) {
            return (x as u32) < (y as u32);
        }
        proof {
            assert(ra.drop_first() =~= a@.subrange(i as int + 1, n as int));
            assert(rb.drop_first() =~= b@.subrange(i as int + 1, m as int));
        }
        i = i + 1;
    }
    i == n
}

/// The distinct strings of `lines`, each where it first occurs.
pub fn distinct_lines(lines: &Vec<String>) -> (r: Vec<String>)
    ensures
        strings_view(r@) == distinct(strings_view(lines@)),
{
    let ghost ls = strings_view(lines@);
    let mut out: Vec<String> = Vec::new();
    let mut i: usize = 0;
    while i < lines.len()
        invariant
            i <= lines.len(),
            ls == strings_view(lines@),
            strings_view(out@) == distinct(ls.subrange(0, i as int)),
        decreases lines.len() - i,
    {
        proof {
            assert(ls.subrange(0, i as int + 1).drop_last() =~= ls.subrange(0, i as int));
        }
        if !contains_text(&out, lines[i].as_str()) {
            let l = lines[i].clone();
            let ghost before = out@;
            out.push(l);
            proof {
                assert(strings_view(out@) =~= strings_view(before).push(ls[i as int]));
            }
        }
        i = i + 1;
    }
    proof {
        assert(ls.subrange(0, lines.len() as int) =~= ls);
    }
    out
}

/// Puts the bookmarks in order of path; bookmarks with the same path keep
/// their relative order.
pub fn sort_by_path(bookmarks: &mut Vec<Bookmark>)
    ensures
        sorted_by_path(views(final(bookmarks)@)),
        views(final(bookmarks)@).to_multiset() == views(old(bookmarks)@).to_multiset(),
{
    let ghost vs = views(bookmarks@);
    let mut out: Vec<Bookmark> = Vec::new();
    let mut i: usize = 0;
    proof {
        assert(views(out@) =~= vs.subrange(0, 0));
    }
    while i < bookmarks.len()
        invariant
            i <= bookmarks.len(),
            vs == views(bookmarks@),
            sorted_by_path(views(out@)),
            views(out@).to_multiset() == vs.subrange(0, i as int).to_multiset(),
        decreases bookmarks.len() - i,
    {
        let x = bookmarks[i].clone();
        let mut p: usize = 0;
        while p < out.len() && text_less_eq(out[p].get_path(), x.get_path())
            invariant
                p <= out.len(),
                forall|k: int| 0 <= k < p ==> text_le(#[trigger] out@[k]@.path, x@.path),
            decreases out.len() - p,
        {
            p = p + 1;
        }
        let ghost before = views(out@);
        out.insert(p, x);
        proof {
            assert(views(out@) =~= before.insert(p as int, x@));
            if p < before.len() {
                assert(!text_le(before[p as int].path, x@.path));
                lemma_text_le_total(before[p as int].path, x@.path);
            }
            let now = views(out@);
            assert forall|k: int| 0 <= k < now.len() - 1 implies text_le(
                #[trigger] now[k].path,
                now[k + 1].path,
            ) by {
                if k + 1 < p {
                    assert(now[k] == before[k] && now[k + 1] == before[k + 1]);
                } else if k + 1 == p {
                    assert(now[k] == before[k]);
                    assert(out@[k]@ == before[k]);
                } else if k == p {
                } else {
                    assert(now[k] == before[k - 1] && now[k + 1] == before[k]);
                }
            }
            to_multiset_insert(before, p as int, x@);
            to_multiset_build(vs.subrange(0, i as int), vs[i as int]);
            assert(vs.subrange(0, i as int + 1) =~= vs.subrange(0, i as int).push(vs[i as int]));
        }
        i = i + 1;
    }
    proof {
        assert(vs.subrange(0, bookmarks.len() as int) =~= vs);
    }
    *bookmarks = out;
}

/// A bookmark for each path, without tags.
pub open spec fn bare(paths: Seq<Seq<char>>) -> Seq<BookmarkView> {
    paths.map_values(|p: Seq<char>| BookmarkView { path: p, tags: Seq::empty() })
}

/// Bookmarks kept as bare paths, one per line, each path once.
pub struct BookmarkRepository<S: Storage> {
    storage: S,
}

impl<S: Storage> BookmarkRepository<S> {
    /// The stored paths, where the storage holds them in memory.
    pub closed spec fn stored_paths(&self) -> Option<Seq<Seq<char>>> {
        self.storage.stored()
    }

    pub fn new(storage: S) -> (r: Self)
        ensures
            r.stored_paths() == storage.stored(),
    {
        Self { storage }
    }

    /// The storage the paths are kept in.
    pub fn storage(&self) -> (r: &S)
        ensures
            r.stored() == self.stored_paths(),
    {
        &self.storage
    }

    /// Adds the bookmark's path to the stored paths; each path is stored once,
    /// where it first occurs.
    pub fn add(&mut self, bookmark: Bookmark) -> (r: Result<(), std::io::Error>)
        ensures
            (final(self).stored_paths() is Some) == (old(self).stored_paths() is Some),
            old(self).stored_paths() matches Some(s) ==> r is Ok && final(self).stored_paths()
                == Some(distinct(s.push(bookmark@.path))),
    {
        let mut lines: Vec<String> = Vec::new();
        match self.storage.read_lines(&mut lines) {
            Ok(()) => {},
            Err(e) => return Err(e),
        }
        let ghost read = strings_view(lines@);
        lines.push(bookmark.path);
        proof {
            assert(strings_view(lines@) =~= read.push(bookmark@.path));
            if self.stored_paths() is Some {
                assert(read =~= self.stored_paths()->0);
            }
        }
        let paths = distinct_lines(&lines);
        self.storage.overwrite(paths.as_slice())
    }

    /// Removes the bookmark's path from the stored paths; each remaining path
    /// is stored once, where it first occurs.
    pub fn delete(&mut self, bookmark: &Bookmark) -> (r: Result<(), std::io::Error>)
        ensures
            (final(self).stored_paths() is Some) == (old(self).stored_paths() is Some),
            old(self).stored_paths() matches Some(s) ==> r is Ok && final(self).stored_paths()
                == Some(without_text(distinct(s), bookmark@.path)),
    {
        let mut lines: Vec<String> = Vec::new();
        match self.storage.read_lines(&mut lines) {
            Ok(()) => {},
            Err(e) => return Err(e),
        }
        proof {
            if self.stored_paths() is Some {
                assert(strings_view(lines@) =~= self.stored_paths()->0);
            }
        }
        let kept = without_line(&distinct_lines(&lines), bookmark.get_path());
        self.storage.overwrite(kept.as_slice())
    }

    /// Adds a bookmark for each stored path to `bookmarks`, then puts them all
    /// in order of path.
    pub fn list(&mut self, bookmarks: &mut Vec<Bookmark>) -> (r: Result<(), std::io::Error>)
        ensures
            final(self).stored_paths() == old(self).stored_paths(),
            r is Ok ==> sorted_by_path(views(final(bookmarks)@)),
            r is Ok ==> exists|read: Seq<BookmarkView>|
                views(final(bookmarks)@).to_multiset() == #[trigger] (views(old(bookmarks)@)
                    + read).to_multiset() && (old(self).stored_paths() matches Some(s) ==> read
                    == bare(s)),
            old(self).stored_paths() is Some ==> r is Ok,
            r is Err ==> final(bookmarks)@ == old(bookmarks)@,
    {
        let mut lines: Vec<String> = Vec::new();
        match self.storage.read_lines(&mut lines) {
            Ok(()) => {},
            Err(e) => return Err(e),
        }
        let ghost ls = strings_view(lines@);
        let ghost start = views(bookmarks@);
        let mut i: usize = 0;
        proof {
            assert(views(bookmarks@) =~= start + bare(ls.subrange(0, 0)));
        }
        while i < lines.len()
            invariant
                i <= lines.len(),
                ls == strings_view(lines@),
                views(bookmarks@) == start + bare(ls.subrange(0, i as int)),
            decreases lines.len() - i,
        {
            let ghost before = views(bookmarks@);
            let b = Bookmark::new(lines[i].as_str(), Vec::new());
            bookmarks.push(b);
            proof {
                assert(b@.tags =~= Seq::<Seq<char>>::empty());
                assert(views(bookmarks@) =~= before.push(b@));
                assert(views(bookmarks@) =~= start + bare(ls.subrange(0, i as int + 1)));
            }
            i = i + 1;
        }
        proof {
            assert(ls.subrange(0, lines.len() as int) =~= ls);
            if self.stored_paths() is Some {
                assert(ls =~= self.stored_paths()->0);
            }
        }
        sort_by_path(bookmarks);
        Ok(())
    }
}

/// `lines` without the line `text`, the others in their order.
pub open spec fn without_text(lines: Seq<Seq<char>>, text: Seq<char>) -> Seq<Seq<char>>
    decreases lines.len(),
{
    if lines.len() == 0 {
        lines
    } else if lines.last() == text {
        without_text(lines.drop_last(), text)
    } else {
        without_text(lines.drop_last(), text).push(lines.last())
    }
}

/// `lines` without the line `text`, the others in their order.
pub fn without_line(lines: &Vec<String>, text: &str) -> (r: Vec<String>)
    ensures
        strings_view(r@) == without_text(strings_view(lines@), text@),
{
    let t = text.to_owned();
    let ghost ls = strings_view(lines@);
    let mut out: Vec<String> = Vec::new();
    let mut i: usize = 0;
    while i < lines.len()
        invariant
            i <= lines.len(),
            t@ == text@,
            ls == strings_view(lines@),
            strings_view(out@) == without_text(ls.subrange(0, i as int), text@),
        decreases lines.len() - i,
    {
        proof {
            assert(ls.subrange(0, i as int + 1).drop_last() =~= ls.subrange(0, i as int));
        }
        if !(lines[i] == t) {
            let l = lines[i].clone();
            let ghost before = out@;
            out.push(l);
            proof {
                assert(strings_view(out@) =~= strings_view(before).push(ls[i as int]));
            }
        }
        i = i + 1;
    }
    proof {
        assert(ls.subrange(0, lines.len() as int) =~= ls);
    }
    out
}

} // verus!
