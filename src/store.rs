//! The list operations that a bookmark store is built on, and the laws they obey.
use crate::bookmark::{
    lemma_parse_stable, lemma_view_round_trip, line_of, parse_line, storable, strings_view,
    Bookmark, BookmarkView,
};
use vstd::prelude::*;

verus! {

/// The views of a list of bookmarks.
pub open spec fn views(bs: Seq<Bookmark>) -> Seq<BookmarkView> {
    bs.map_values(|b: Bookmark| b@)
}

/// Some bookmark of `bs` has the path `p`.
pub open spec fn has_path(bs: Seq<BookmarkView>, p: Seq<char>) -> bool {
    exists|i: int| 0 <= i < bs.len() && #[trigger] bs[i].path == p
}

/// How many bookmarks of `bs` have the path `p`.
pub open spec fn count_path(bs: Seq<BookmarkView>, p: Seq<char>) -> nat
    decreases bs.len(),
{
    if bs.len() == 0 {
        0
    } else {
        count_path(bs.drop_last(), p) + if bs.last().path == p {
            1nat
        } else {
            0nat
        }
    }
}

/// `bs` without the bookmarks whose path is `p`, the others in their order.
pub open spec fn without_path(bs: Seq<BookmarkView>, p: Seq<char>) -> Seq<BookmarkView>
    decreases bs.len(),
{
    if bs.len() == 0 {
        bs
    } else if bs.last().path == p {
        without_path(bs.drop_last(), p)
    } else {
        without_path(bs.drop_last(), p).push(bs.last())
    }
}

/// The list after saving `b`: any bookmark with its path is dropped, and `b`
/// comes last.
pub open spec fn saved(bs: Seq<BookmarkView>, b: BookmarkView) -> Seq<BookmarkView> {
    without_path(bs, b.path).push(b)
}

/// The bookmarks that a list of stored lines describes, one per line.
pub open spec fn parsed(lines: Seq<Seq<char>>) -> Seq<BookmarkView> {
    lines.map_values(|l: Seq<char>| parse_line(l))
}

/// The stored lines of a list of bookmarks, one per bookmark.
pub open spec fn lines_of(bs: Seq<BookmarkView>) -> Seq<Seq<char>> {
    bs.map_values(|b: BookmarkView| line_of(b.path, b.tags))
}

proof fn lemma_has_path_count(bs: Seq<BookmarkView>, p: Seq<char>)
    ensures
        has_path(bs, p) <==> count_path(bs, p) > 0,
    decreases bs.len(),
{
    if bs.len() > 0 {
        let front = bs.drop_last();
        lemma_has_path_count(front, p);
        if has_path(front, p) {
            let i = choose|i: int| 0 <= i < front.len() && #[trigger] front[i].path == p;
            assert(bs[i].path == p);
        }
        if has_path(bs, p) && bs.last().path != p {
            let i = choose|i: int| 0 <= i < bs.len() && #[trigger] bs[i].path == p;
            assert(front[i].path == p);
        }
        if bs.last().path == p {
            assert(bs[bs.len() - 1].path == p);
        }
    }
}

proof fn lemma_without_path_count(bs: Seq<BookmarkView>, p: Seq<char>)
    ensures
        count_path(without_path(bs, p), p) == 0,
    decreases bs.len(),
{
    if bs.len() > 0 {
        lemma_without_path_count(bs.drop_last(), p);
        let rest = without_path(bs.drop_last(), p);
        if bs.last().path != p {
            assert(rest.push(bs.last()).drop_last() =~= rest);
        }
    }
}

proof fn lemma_without_path_absent(bs: Seq<BookmarkView>, p: Seq<char>)
    requires
        !has_path(bs, p),
    ensures
        without_path(bs, p) == bs,
    decreases bs.len(),
{
    if bs.len() > 0 {
        let front = bs.drop_last();
        assert(!has_path(front, p)) by {
            if has_path(front, p) {
                let i = choose|i: int| 0 <= i < front.len() && #[trigger] front[i].path == p;
                assert(bs[i].path == p);
            }
        }
        assert(bs[bs.len() - 1].path != p);
        lemma_without_path_absent(front, p);
        assert(front.push(bs.last()) =~= bs);
    }
}

proof fn lemma_without_path_twice(bs: Seq<BookmarkView>, p: Seq<char>)
    ensures
        without_path(without_path(bs, p), p) == without_path(bs, p),
{
    lemma_without_path_count(bs, p);
    lemma_has_path_count(without_path(bs, p), p);
    lemma_without_path_absent(without_path(bs, p), p);
}

proof fn lemma_saved_drop(bs: Seq<BookmarkView>, b: BookmarkView)
    ensures
        without_path(saved(bs, b), b.path) == without_path(bs, b.path),
{
    let s = saved(bs, b);
    assert(s.drop_last() =~= without_path(bs, b.path));
    lemma_without_path_twice(bs, b.path);
}

/// After a save, exactly one bookmark has the saved path, and it is the saved bookmark.
pub proof fn lemma_save_unique(bs: Seq<BookmarkView>, b: BookmarkView)
    ensures
        count_path(saved(bs, b), b.path) == 1,
        saved(bs, b).last() == b,
{
    let s = saved(bs, b);
    lemma_without_path_count(bs, b.path);
    assert(s.drop_last() =~= without_path(bs, b.path));
}

/// Saving the same path twice leaves exactly one bookmark with that path, and
/// saving the same bookmark twice is the same as saving it once.
pub proof fn lemma_save_idempotent(bs: Seq<BookmarkView>, b1: BookmarkView, b2: BookmarkView)
    requires
        b1.path == b2.path,
    ensures
        count_path(saved(saved(bs, b1), b2), b2.path) == 1,
        saved(saved(bs, b2), b2) == saved(bs, b2),
{
    lemma_save_unique(saved(bs, b1), b2);
    lemma_saved_drop(bs, b2);
}

/// Saving a path that is already stored, with other tags, replaces the stored
/// bookmark: the result is what saving the new one alone would give, and the
/// one bookmark with that path carries the new tags.
pub proof fn lemma_resave_replaces(bs: Seq<BookmarkView>, b1: BookmarkView, b2: BookmarkView)
    requires
        b1.path == b2.path,
    ensures
        saved(saved(bs, b1), b2) == saved(bs, b2),
        count_path(saved(saved(bs, b1), b2), b2.path) == 1,
        saved(saved(bs, b1), b2).last().tags == b2.tags,
{
    lemma_saved_drop(bs, b1);
    lemma_save_unique(bs, b2);
}

/// Deleting a path that no bookmark has leaves the list as it was.
pub proof fn lemma_delete_absent(bs: Seq<BookmarkView>, p: Seq<char>)
    requires
        !has_path(bs, p),
    ensures
        without_path(bs, p) == bs,
{
    lemma_without_path_absent(bs, p);
}

/// Whether some bookmark of `bookmarks` has the path `path`.
pub fn contains_path(bookmarks: &Vec<Bookmark>, path: &str) -> (r: bool)
    ensures
        r == has_path(views(bookmarks@), path@),
{
    let p = path.to_owned();
    let ghost vs = views(bookmarks@);
    let mut i: usize = 0;
    while i < bookmarks.len()
        invariant
            i <= bookmarks.len(),
            vs == views(bookmarks@),
            p@ == path@,
            forall|k: int| 0 <= k < i ==> #[trigger] vs[k].path != p@,
        decreases bookmarks.len() - i,
    {
        if bookmarks[i].path == p {
            assert(vs[i as int].path == p@);
            return true;
        }
        i = i + 1;
    }
    false
}

/// `bookmarks` without those whose path is `path`, the others in their order.
pub fn remove_path(bookmarks: &Vec<Bookmark>, path: &str) -> (r: Vec<Bookmark>)
    ensures
        views(r@) == without_path(views(bookmarks@), path@),
{
    let p = path.to_owned();
    let ghost vs = views(bookmarks@);
    let mut out: Vec<Bookmark> = Vec::new();
    let mut i: usize = 0;
    while i < bookmarks.len()
        invariant
            i <= bookmarks.len(),
            vs == views(bookmarks@),
            p@ == path@,
            views(out@) == without_path(vs.subrange(0, i as int), p@),
        decreases bookmarks.len() - i,
    {
        proof {
            assert(vs.subrange(0, i as int + 1).drop_last() =~= vs.subrange(0, i as int));
        }
        if !(bookmarks[i].path == p) {
            let b = bookmarks[i].clone();
            let ghost before = out@;
            out.push(b);
            proof {
                assert(views(out@) =~= views(before).push(vs[i as int]));
            }
        }
        i = i + 1;
    }
    proof {
        assert(vs.subrange(0, bookmarks.len() as int) =~= vs);
    }
    out
}

/// The list after saving `bookmark`: any bookmark with its path is dropped,
/// and `bookmark` comes last.
pub fn upsert(bookmarks: &Vec<Bookmark>, bookmark: &Bookmark) -> (r: Vec<Bookmark>)
    ensures
        views(r@) == saved(views(bookmarks@), bookmark@),
{
    let mut out = remove_path(bookmarks, bookmark.get_path());
    let ghost before = out@;
    out.push(bookmark.clone());
    proof {
        assert(views(out@) =~= views(before).push(bookmark@));
    }
    out
}

/// Reads each stored line as a bookmark.
pub fn parse_lines(lines: &Vec<String>) -> (r: Vec<Bookmark>)
    ensures
        views(r@) == parsed(strings_view(lines@)),
{
    let ghost ls = strings_view(lines@);
    let mut out: Vec<Bookmark> = Vec::new();
    let mut i: usize = 0;
    while i < lines.len()
        invariant
            i <= lines.len(),
            ls == strings_view(lines@),
            views(out@) == parsed(ls.subrange(0, i as int)),
        decreases lines.len() - i,
    {
        let b = Bookmark::parse(lines[i].clone());
        let ghost before = out@;
        out.push(b);
        proof {
            assert(views(out@) =~= views(before).push(b@));
            assert(b@ == parse_line(ls[i as int]));
            assert(views(out@) =~= parsed(ls.subrange(0, i as int + 1)));
        }
        i = i + 1;
    }
    proof {
        assert(ls.subrange(0, lines.len() as int) =~= ls);
    }
    out
}

/// The stored line of each bookmark.
pub fn format_lines(bookmarks: &Vec<Bookmark>) -> (r: Vec<String>)
    ensures
        strings_view(r@) == lines_of(views(bookmarks@)),
{
    let ghost vs = views(bookmarks@);
    let mut out: Vec<String> = Vec::new();
    let mut i: usize = 0;
    while i < bookmarks.len()
        invariant
            i <= bookmarks.len(),
            vs == views(bookmarks@),
            strings_view(out@) == lines_of(vs.subrange(0, i as int)),
        decreases bookmarks.len() - i,
    {
        let line = bookmarks[i].to_string();
        let ghost before = out@;
        out.push(line);
        proof {
            assert(strings_view(out@) =~= strings_view(before).push(line@));
            assert(line@ == line_of(vs[i as int].path, vs[i as int].tags));
            assert(strings_view(out@) =~= lines_of(vs.subrange(0, i as int + 1)));
        }
        i = i + 1;
    }
    proof {
        assert(vs.subrange(0, bookmarks.len() as int) =~= vs);
    }
    out
}

/// Each bookmark of `bs` reads back as itself once written as a line.
pub open spec fn stable(bs: Seq<BookmarkView>) -> bool {
    forall|i: int| 0 <= i < bs.len() ==> parse_line(line_of(bs[i].path, bs[i].tags)) == #[trigger] bs[i]
}

/// Bookmarks read from lines read back as themselves once written again.
pub proof fn lemma_parsed_stable(ls: Seq<Seq<char>>)
    ensures
        stable(parsed(ls)),
{
    assert forall|i: int| 0 <= i < parsed(ls).len() implies parse_line(
        line_of(parsed(ls)[i].path, parsed(ls)[i].tags),
    ) == #[trigger] parsed(ls)[i] by {
        lemma_parse_stable(ls[i]);
    }
}

/// Stored lines read back give the bookmarks that were written, where each of
/// them reads back as itself.
pub proof fn lemma_lines_round_trip(bs: Seq<BookmarkView>)
    requires
        stable(bs),
    ensures
        parsed(lines_of(bs)) == bs,
{
    assert(parsed(lines_of(bs)) =~= bs);
}

/// Deleting a path from bookmarks that read back as themselves gives
/// bookmarks that read back as themselves.
pub proof fn lemma_without_path_stable(bs: Seq<BookmarkView>, p: Seq<char>)
    requires
        stable(bs),
    ensures
        stable(without_path(bs, p)),
    decreases bs.len(),
{
    if bs.len() > 0 {
        let front = bs.drop_last();
        assert(stable(front)) by {
            assert forall|i: int| 0 <= i < front.len() implies parse_line(
                line_of(front[i].path, front[i].tags),
            ) == #[trigger] front[i] by {
                assert(front[i] == bs[i]);
            }
        }
        lemma_without_path_stable(front, p);
        let rest = without_path(front, p);
        if bs.last().path != p {
            let all = rest.push(bs.last());
            assert forall|i: int| 0 <= i < all.len() implies parse_line(
                line_of(all[i].path, all[i].tags),
            ) == #[trigger] all[i] by {
                if i < rest.len() {
                    assert(all[i] == rest[i]);
                } else {
                    assert(all[i] == bs[bs.len() - 1]);
                }
            }
        }
    }
}

/// Saving a storable bookmark into bookmarks that read back as themselves
/// gives bookmarks that read back as themselves.
pub proof fn lemma_saved_stable(bs: Seq<BookmarkView>, b: BookmarkView)
    requires
        stable(bs),
        storable(b),
    ensures
        stable(saved(bs, b)),
{
    lemma_without_path_stable(bs, b.path);
    lemma_view_round_trip(b);
    let rest = without_path(bs, b.path);
    let all = saved(bs, b);
    assert forall|i: int| 0 <= i < all.len() implies parse_line(line_of(all[i].path, all[i].tags))
        == #[trigger] all[i] by {
        if i < rest.len() {
            assert(all[i] == rest[i]);
        }
    }
}

/// A copy of each bookmark, in order.
pub fn clone_all(bookmarks: &[Bookmark]) -> (r: Vec<Bookmark>)
    ensures
        views(r@) == views(bookmarks@),
{
    let ghost vs = views(bookmarks@);
    let mut out: Vec<Bookmark> = Vec::new();
    let mut i: usize = 0;
    while i < bookmarks.len()
        invariant
            i <= bookmarks.len(),
            vs == views(bookmarks@),
            views(out@) == vs.subrange(0, i as int),
        decreases bookmarks.len() - i,
    {
        let b = bookmarks[i].clone();
        let ghost before = out@;
        out.push(b);
        proof {
            assert(views(out@) =~= views(before).push(b@));
            assert(views(out@) =~= vs.subrange(0, i as int + 1));
        }
        i = i + 1;
    }
    proof {
        assert(vs.subrange(0, bookmarks.len() as int) =~= vs);
    }
    out
}

} // verus!
