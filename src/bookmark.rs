//! The bookmark entity and its stored line: `path #tag1 #tag2`.
use crate::path::PathOps;
use vstd::prelude::*;

verus! {

/// What a bookmark is, as the contracts see it: a path and an ordered list of tags.
pub struct BookmarkView {
    pub path: Seq<char>,
    pub tags: Seq<Seq<char>>,
}

/// A bookmarked directory with its tags. Identity is the path alone.
#[derive(Debug, PartialEq, Eq, Hash, PartialOrd, Ord)]
pub struct Bookmark {
    pub path: String,
    pub tags: Vec<String>,
}

/// The views of a sequence of strings.
pub open spec fn strings_view(v: Seq<String>) -> Seq<Seq<char>> {
    v.map_values(|s: String| s@)
}

impl View for Bookmark {
    type V = BookmarkView;

    open spec fn view(&self) -> BookmarkView {
        BookmarkView { path: self.path@, tags: strings_view(self.tags@) }
    }
}

/// Unicode `White_Space`: the characters that separate the tokens of a stored line.
pub open spec fn is_white_space(c: char) -> bool {
    let v = c as u32;
    (0x9 <= v && v <= 0xd) || v == 0x20 || v == 0x85 || v == 0xa0 || v == 0x1680 || (0x2000 <= v
        && v <= 0x200a) || v == 0x2028 || v == 0x2029 || v == 0x202f || v == 0x205f || v == 0x3000
}

/// Reading `s` left to right: the tokens completed so far, and the token in progress.
pub open spec fn scan(s: Seq<char>) -> (Seq<Seq<char>>, Seq<char>)
    decreases s.len(),
{
    if s.len() == 0 {
        (Seq::empty(), Seq::empty())
    } else {
        let prev = scan(s.drop_last());
        if is_white_space(s.last()) {
            if prev.1.len() > 0 {
                (prev.0.push(prev.1), Seq::empty())
            } else {
                (prev.0, Seq::empty())
            }
        } else {
            (prev.0, prev.1.push(s.last()))
        }
    }
}

/// The maximal runs of non-whitespace characters of `s`, in order.
pub open spec fn words(s: Seq<char>) -> Seq<Seq<char>> {
    if scan(s).1.len() > 0 {
        scan(s).0.push(scan(s).1)
    } else {
        scan(s).0
    }
}

/// The tags named by a list of tokens: each token that starts with `#`, without it.
pub open spec fn tags_of(ws: Seq<Seq<char>>) -> Seq<Seq<char>>
    decreases ws.len(),
{
    if ws.len() == 0 {
        Seq::empty()
    } else if ws.last().len() > 0 && ws.last()[0] == '#' {
        tags_of(ws.drop_last()).push(ws.last().drop_first())
    } else {
        tags_of(ws.drop_last())
    }
}

/// The bookmark that a stored line describes: its first token is the path, and
/// each later token that starts with `#` is a tag.
pub open spec fn parse_line(s: Seq<char>) -> BookmarkView {
    let ws = words(s);
    if ws.len() == 0 {
        BookmarkView { path: Seq::empty(), tags: Seq::empty() }
    } else {
        BookmarkView { path: ws[0], tags: tags_of(ws.subrange(1, ws.len() as int)) }
    }
}

/// The stored line of a bookmark: the path, then ` #tag` for each tag.
pub open spec fn line_of(path: Seq<char>, tags: Seq<Seq<char>>) -> Seq<char>
    decreases tags.len(),
{
    if tags.len() == 0 {
        path
    } else {
        line_of(path, tags.drop_last()) + seq![' ', '#'] + tags.last()
    }
}

/// `w` holds no whitespace.
pub open spec fn no_white_space(w: Seq<char>) -> bool {
    forall|i: int| 0 <= i < w.len() ==> !is_white_space(#[trigger] w[i])
}

/// A bookmark that survives being written as a line and read back: its path is
/// one non-empty token and no tag holds whitespace.
pub open spec fn storable(b: BookmarkView) -> bool {
    &&& b.path.len() > 0
    &&& no_white_space(b.path)
    &&& forall|i: int| 0 <= i < b.tags.len() ==> no_white_space(#[trigger] b.tags[i])
}

fn is_separator(c: char) -> (r: bool)
    ensures
        r == is_white_space(c),
{
    let v = c as u32;
    (0x9 <= v && v <= 0xd) || v == 0x20 || v == 0x85 || v == 0xa0 || v == 0x1680 || (0x2000 <= v
        && v <= 0x200a) || v == 0x2028 || v == 0x2029 || v == 0x202f || v == 0x205f || v == 0x3000
}

/// Splits `s` into its whitespace-separated tokens.
pub fn split_words(s: &str) -> (r: Vec<String>)
    ensures
        strings_view(r@) == words(s@),
{
    let n = s.unicode_len();
    let mut out: Vec<String> = Vec::new();
    let mut start: usize = 0;
    let mut i: usize = 0;
    while i < n
        invariant
            n == s@.len(),
            start <= i <= n,
            scan(s@.subrange(0, i as int)) == (strings_view(out@), s@.subrange(
                start as int,
                i as int,
            )),
        decreases n - i,
    {
        let c = s.get_char(i);
        proof {
            let pre = s@.subrange(0, i as int + 1);
            assert(pre.drop_last() =~= s@.subrange(0, i as int));
            assert(pre.last() == c);
        }
        if is_separator(c) {
            if start < i {
                let w = s.substring_char(start, i).to_owned();
                let ghost before = out@;
                out.push(w);
                proof {
                    assert(strings_view(out@) =~= strings_view(before).push(
                        s@.subrange(start as int, i as int),
                    ));
                }
            }
            start = i + 1;
        } else {
            proof {
                assert(s@.subrange(start as int, i as int + 1) =~= s@.subrange(
                    start as int,
                    i as int,
                ).push(c));
            }
        }
        i = i + 1;
    }
    if start < n {
        let w = s.substring_char(start, n).to_owned();
        let ghost before = out@;
        out.push(w);
        proof {
            assert(strings_view(out@) =~= strings_view(before).push(
                s@.subrange(start as int, n as int),
            ));
        }
    }
    proof {
        assert(s@.subrange(0, n as int) =~= s@);
    }
    out
}

impl Bookmark {
    pub fn new(path: &str, tags: Vec<String>) -> (r: Self)
        ensures
            r@ == (BookmarkView { path: path@, tags: strings_view(tags@) }),
    {
        Self { path: path.to_owned(), tags }
    }

    pub fn get_path(&self) -> (r: &str)
        ensures
            r@ == self.path@,
    {
        self.path.as_str()
    }

    pub fn get_tags(&self) -> (r: &Vec<String>)
        ensures
            strings_view(r@) == self@.tags,
    {
        &self.tags
    }

    /// Whether the bookmarked directory no longer exists.
    pub fn is_broken<P: PathOps>(&self, path_ops: &P) -> (r: bool)
        ensures
            path_ops.fs() matches Some(f) ==> r == !f.existing.contains(self@.path),
    {
        !path_ops.path_exists(self.get_path())
    }

    /// Reads a stored line: the first token is the path, and each later token
    /// that starts with `#` is a tag, without its `#`. Other tokens are dropped.
    pub fn parse(s: String) -> (r: Self)
        ensures
            r@ == parse_line(s@),
    {
        let ws = split_words(s.as_str());
        if ws.len() == 0 {
            let r = Bookmark { path: String::new(), tags: Vec::new() };
            proof {
                assert(strings_view(r.tags@) =~= Seq::empty());
            }
            return r;
        }
        let path = ws[0].clone();
        let ghost wv = strings_view(ws@);
        let mut tags: Vec<String> = Vec::new();
        let mut j: usize = 1;
        while j < ws.len()
            invariant
                1 <= j <= ws.len(),
                wv == strings_view(ws@),
                strings_view(tags@) == tags_of(wv.subrange(1, j as int)),
            decreases ws.len() - j,
        {
            let w = ws[j].as_str();
            let len = w.unicode_len();
            let ghost before = tags@;
            proof {
                assert(wv.subrange(1, j as int + 1).drop_last() =~= wv.subrange(1, j as int));
                assert(wv.subrange(1, j as int + 1).last() == w@);
            }
            if len > 0 && w.get_char(0) == '#' {
                tags.push(w.substring_char(1, len).to_owned());
                proof {
                    assert(w@.drop_first() =~= w@.subrange(1, len as int));
                    assert(strings_view(tags@) =~= strings_view(before).push(w@.drop_first()));
                }
            }
            j = j + 1;
        }
        proof {
            assert(wv.subrange(1, ws.len() as int) =~= wv.subrange(1, wv.len() as int));
        }
        Bookmark { path, tags }
    }

    /// The stored line of this bookmark: the path, then ` #tag` for each tag.
    pub fn to_string(&self) -> (r: String)
        ensures
            r@ == line_of(self@.path, self@.tags),
    {
        let mut out = self.path.clone();
        let ghost tv = self@.tags;
        let mut k: usize = 0;
        while k < self.tags.len()
            invariant
                k <= self.tags.len(),
                tv == self@.tags,
                out@ == line_of(self.path@, tv.subrange(0, k as int)),
            decreases self.tags.len() - k,
        {
            let ghost before = out@;
            out.append(" #");
            out.append(self.tags[k].as_str());
            proof {
                reveal_strlit(" #");
                assert(tv.subrange(0, k as int + 1).drop_last() =~= tv.subrange(0, k as int));
                assert(out@ =~= before + seq![' ', '#'] + tv[k as int]);
            }
            k = k + 1;
        }
        proof {
            assert(tv.subrange(0, self.tags.len() as int) =~= tv);
        }
        out
    }
}

impl Clone for Bookmark {
    fn clone(&self) -> (r: Self)
        ensures
            r@ == self@,
    {
        let mut tags: Vec<String> = Vec::new();
        let mut k: usize = 0;
        while k < self.tags.len()
            invariant
                k <= self.tags.len(),
                strings_view(tags@) == strings_view(self.tags@).subrange(0, k as int),
            decreases self.tags.len() - k,
        {
            let t = self.tags[k].clone();
            let ghost before = tags@;
            tags.push(t);
            proof {
                assert(t@ == self.tags@[k as int]@);
                assert(tags@ == before.push(t));
                assert(strings_view(tags@) =~= strings_view(before).push(t@));
                assert(strings_view(tags@) =~= strings_view(self.tags@).subrange(0, k as int + 1));
            }
            k = k + 1;
        }
        proof {
            assert(strings_view(self.tags@).subrange(0, self.tags.len() as int) =~= strings_view(
                self.tags@,
            ));
        }
        Bookmark { path: self.path.clone(), tags }
    }
}

/// Each tag with `#` put in front: the tokens that the tags become in a stored line.
pub open spec fn marked(tags: Seq<Seq<char>>) -> Seq<Seq<char>> {
    tags.map_values(|t: Seq<char>| seq!['#'] + t)
}

proof fn lemma_scan_token(p: Seq<char>, q: Seq<char>)
    requires
        no_white_space(q),
    ensures
        scan(p + q) == (scan(p).0, scan(p).1 + q),
    decreases q.len(),
{
    if q.len() == 0 {
        assert(p + q =~= p);
        assert(scan(p).1 + q =~= scan(p).1);
    } else {
        let q0 = q.drop_last();
        assert((p + q).drop_last() =~= p + q0);
        assert((p + q).last() == q.last());
        assert(no_white_space(q0)) by {
            assert forall|i: int| 0 <= i < q0.len() implies !is_white_space(#[trigger] q0[i]) by {
                assert(q0[i] == q[i]);
            }
        }
        assert(!is_white_space(q[q.len() - 1]));
        lemma_scan_token(p, q0);
        assert((scan(p).1 + q0).push(q.last()) =~= scan(p).1 + q);
    }
}

proof fn lemma_scan_space(p: Seq<char>)
    ensures
        scan(p.push(' ')) == (
            if scan(p).1.len() > 0 {
                scan(p).0.push(scan(p).1)
            } else {
                scan(p).0
            },
            Seq::<char>::empty(),
        ),
{
    assert(p.push(' ').drop_last() =~= p);
    assert(is_white_space(' '));
}

proof fn lemma_scan_line(path: Seq<char>, tags: Seq<Seq<char>>)
    requires
        path.len() > 0,
        no_white_space(path),
        forall|i: int| 0 <= i < tags.len() ==> no_white_space(#[trigger] tags[i]),
    ensures
        scan(line_of(path, tags)) == (
            if tags.len() == 0 {
                (Seq::<Seq<char>>::empty(), path)
            } else {
                (seq![path] + marked(tags.drop_last()), seq!['#'] + tags.last())
            }
        ),
    decreases tags.len(),
{
    if tags.len() == 0 {
        lemma_scan_token(Seq::empty(), path);
        assert(Seq::<char>::empty() + path =~= path);
        assert(scan(Seq::<char>::empty()) == (Seq::<Seq<char>>::empty(), Seq::<char>::empty()));
        assert(Seq::<char>::empty() + path =~= path);
    } else {
        let front = tags.drop_last();
        let l0 = line_of(path, front);
        assert forall|i: int| 0 <= i < front.len() implies no_white_space(#[trigger] front[i]) by {
            assert(front[i] == tags[i]);
        }
        lemma_scan_line(path, front);
        let t = tags.last();
        let tok = seq!['#'] + t;
        assert(no_white_space(t)) by {
            assert(t == tags[tags.len() - 1]);
        }
        assert(no_white_space(tok)) by {
            assert forall|i: int| 0 <= i < tok.len() implies !is_white_space(#[trigger] tok[i]) by {
                if i > 0 {
                    assert(tok[i] == t[i - 1]);
                }
            }
        }
        assert(line_of(path, tags) =~= l0.push(' ') + tok);
        lemma_scan_space(l0);
        lemma_scan_token(l0.push(' '), tok);
        assert(Seq::<char>::empty() + tok =~= tok);
        if front.len() == 0 {
            assert(seq![path] + marked(front) =~= Seq::<Seq<char>>::empty().push(path));
        } else {
            assert(marked(front) =~= marked(front.drop_last()).push(seq!['#'] + front.last()));
            assert(seq![path] + marked(front) =~= (seq![path] + marked(front.drop_last())).push(
                seq!['#'] + front.last(),
            ));
        }
    }
}

proof fn lemma_tags_of_marked(tags: Seq<Seq<char>>)
    ensures
        tags_of(marked(tags)) == tags,
    decreases tags.len(),
{
    if tags.len() > 0 {
        assert(marked(tags).drop_last() =~= marked(tags.drop_last()));
        let m = marked(tags).last();
        assert(m == seq!['#'] + tags.last());
        assert(m.drop_first() =~= tags.last());
        lemma_tags_of_marked(tags.drop_last());
        assert(tags.drop_last().push(tags.last()) =~= tags);
    } else {
        assert(marked(tags) =~= Seq::empty());
        assert(tags =~= Seq::empty());
    }
}

/// A bookmark written as a line reads back as itself, where its path is one
/// token and no tag holds whitespace.
pub proof fn lemma_view_round_trip(v: BookmarkView)
    requires
        storable(v),
    ensures
        parse_line(line_of(v.path, v.tags)) == v,
{
    lemma_scan_line(v.path, v.tags);
    let ws = words(line_of(v.path, v.tags));
    if v.tags.len() == 0 {
        assert(ws =~= seq![v.path] + marked(v.tags));
    } else {
        assert(marked(v.tags) =~= marked(v.tags.drop_last()).push(seq!['#'] + v.tags.last()));
        assert(ws =~= seq![v.path] + marked(v.tags));
    }
    assert(ws.subrange(1, ws.len() as int) =~= marked(v.tags));
    lemma_tags_of_marked(v.tags);
}

/// Formatting a bookmark and parsing the line gives the same bookmark, where
/// the path is one token and no tag holds whitespace.
pub proof fn lemma_round_trip(b: Bookmark)
    requires
        storable(b@),
    ensures
        parse_line(line_of(b@.path, b@.tags)) == b@,
{
    lemma_view_round_trip(b@);
}

/// Every completed token of `scan(s)` is non-empty and free of whitespace,
/// and so is the token in progress, but for being empty.
proof fn lemma_scan_tokens(s: Seq<char>)
    ensures
        forall|i: int|
            0 <= i < scan(s).0.len() ==> (#[trigger] scan(s).0[i]).len() > 0 && no_white_space(
                scan(s).0[i],
            ),
        no_white_space(scan(s).1),
    decreases s.len(),
{
    if s.len() > 0 {
        lemma_scan_tokens(s.drop_last());
        let prev = scan(s.drop_last());
        if !is_white_space(s.last()) {
            let cur = prev.1.push(s.last());
            assert forall|i: int| 0 <= i < cur.len() implies !is_white_space(#[trigger] cur[i]) by {
                if i < prev.1.len() {
                    assert(cur[i] == prev.1[i]);
                }
            }
        }
    }
}

proof fn lemma_tags_of_tokens(ws: Seq<Seq<char>>)
    requires
        forall|i: int| 0 <= i < ws.len() ==> no_white_space(#[trigger] ws[i]),
    ensures
        forall|i: int| 0 <= i < tags_of(ws).len() ==> no_white_space(#[trigger] tags_of(ws)[i]),
    decreases ws.len(),
{
    if ws.len() > 0 {
        let front = ws.drop_last();
        assert forall|i: int| 0 <= i < front.len() implies no_white_space(#[trigger] front[i]) by {
            assert(front[i] == ws[i]);
        }
        lemma_tags_of_tokens(front);
        let w = ws.last();
        assert(no_white_space(w)) by {
            assert(w == ws[ws.len() - 1]);
        }
        if w.len() > 0 && w[0] == '#' {
            let t = w.drop_first();
            assert forall|k: int| 0 <= k < t.len() implies !is_white_space(#[trigger] t[k]) by {
                assert(t[k] == w[k + 1]);
            }
            let all = tags_of(front).push(t);
            assert(tags_of(ws) == all);
            assert forall|i: int| 0 <= i < all.len() implies no_white_space(#[trigger] all[i]) by {
                if i < tags_of(front).len() {
                    assert(all[i] == tags_of(front)[i]);
                }
            }
        }
    }
}

/// A bookmark read from a line is written back as a line that reads as the
/// same bookmark: reading is stable under writing.
pub proof fn lemma_parse_stable(s: Seq<char>)
    ensures
        parse_line(line_of(parse_line(s).path, parse_line(s).tags)) == parse_line(s),
{
    let v = parse_line(s);
    let ws = words(s);
    lemma_scan_tokens(s);
    assert forall|i: int| 0 <= i < ws.len() implies (#[trigger] ws[i]).len() > 0 && no_white_space(
        ws[i],
    ) by {
        if i < scan(s).0.len() {
            assert(ws[i] == scan(s).0[i]);
        }
    }
    if ws.len() == 0 {
        assert(line_of(v.path, v.tags) =~= Seq::<char>::empty());
        assert(scan(Seq::<char>::empty()).1.len() == 0);
        assert(words(Seq::<char>::empty()) =~= Seq::<Seq<char>>::empty());
    } else {
        let rest = ws.subrange(1, ws.len() as int);
        assert forall|i: int| 0 <= i < rest.len() implies no_white_space(#[trigger] rest[i]) by {
            assert(rest[i] == ws[i + 1]);
        }
        lemma_tags_of_tokens(rest);
        lemma_view_round_trip(v);
    }
}

} // verus!
