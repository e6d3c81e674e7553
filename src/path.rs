//! Filesystem queries, and a filesystem held in memory.
use crate::bookmark::strings_view;
use vstd::prelude::*;

verus! {

/// A filesystem as the contracts see it: the paths that exist, the
/// directories, and the current directory where it can be determined.
pub struct FsView {
    pub existing: Set<Seq<char>>,
    pub directories: Set<Seq<char>>,
    pub current_dir: Option<Seq<char>>,
}

/// Queries on the filesystem: whether a path exists, whether it is a
/// directory, and what the current directory is.
pub trait PathOps {
    /// The filesystem, where it is held in memory; `None` for the real one,
    /// which may change between two queries.
    open spec fn fs(&self) -> Option<FsView> {
        None
    }

    fn path_exists(&self, path: &str) -> (r: bool)
        ensures
            self.fs() matches Some(f) ==> r == f.existing.contains(path@),
    ;

    fn is_dir(&self, path: &str) -> (r: bool)
        ensures
            self.fs() matches Some(f) ==> r == f.directories.contains(path@),
    ;

    fn get_current_dir(&self) -> (r: Result<String, std::io::Error>)
        ensures
            self.fs() matches Some(f) ==> (r is Ok <==> f.current_dir is Some),
            self.fs() matches Some(f) ==> (r matches Ok(d) ==> d@ == f.current_dir->0),
    ;
}

/// Relies on std::io::Error::from: an error of kind `NotFound`, for a current
/// directory that cannot be determined.
#[verifier::external_body]
fn not_found_error() -> std::io::Error {
    std::io::Error::from(std::io::ErrorKind::NotFound)
}

/// Whether `s` is one of `v`.
pub fn contains_text(v: &Vec<String>, s: &str) -> (r: bool)
    ensures
        r == strings_view(v@).contains(s@),
{
    let t = s.to_owned();
    let mut i: usize = 0;
    while i < v.len()
        invariant
            i <= v.len(),
            t@ == s@,
            forall|k: int| 0 <= k < i ==> #[trigger] strings_view(v@)[k] != s@,
        decreases v.len() - i,
    {
        if v[i] == t {
            assert(strings_view(v@)[i as int] == s@);
            return true;
        }
        i = i + 1;
    }
    false
}

/// A filesystem held in memory: the paths that exist, those of them that are
/// directories, and the current directory if it can be determined.
pub struct MockPathOps {
    pub existing: Vec<String>,
    pub directories: Vec<String>,
    pub current_dir: Option<String>,
}

impl MockPathOps {
    /// A filesystem with nothing in it and no current directory.
    pub fn new() -> (r: Self)
        ensures
            r.existing@.len() == 0,
            r.directories@.len() == 0,
            r.current_dir is None,
    {
        Self { existing: Vec::new(), directories: Vec::new(), current_dir: None }
    }

    /// Adds a directory.
    pub fn add_dir(&mut self, path: &str)
        ensures
            strings_view(final(self).existing@) == strings_view(old(self).existing@).push(path@),
            strings_view(final(self).directories@) == strings_view(old(self).directories@).push(
                path@,
            ),
            final(self).current_dir == old(self).current_dir,
    {
        let ghost e = self.existing@;
        let ghost d = self.directories@;
        self.existing.push(path.to_owned());
        self.directories.push(path.to_owned());
        proof {
            assert(strings_view(self.existing@) =~= strings_view(e).push(path@));
            assert(strings_view(self.directories@) =~= strings_view(d).push(path@));
        }
    }

    /// Adds a path that is not a directory.
    pub fn add_file(&mut self, path: &str)
        ensures
            strings_view(final(self).existing@) == strings_view(old(self).existing@).push(path@),
            final(self).directories@ == old(self).directories@,
            final(self).current_dir == old(self).current_dir,
    {
        let ghost e = self.existing@;
        self.existing.push(path.to_owned());
        proof {
            assert(strings_view(self.existing@) =~= strings_view(e).push(path@));
        }
    }

    /// Sets the current directory.
    pub fn set_current_dir(&mut self, path: &str)
        ensures
            final(self).current_dir matches Some(d) && d@ == path@,
            final(self).existing@ == old(self).existing@,
            final(self).directories@ == old(self).directories@,
    {
        self.current_dir = Some(path.to_owned());
    }
}

impl PathOps for MockPathOps {
    open spec fn fs(&self) -> Option<FsView> {
        Some(
            FsView {
                existing: strings_view(self.existing@).to_set(),
                directories: strings_view(self.directories@).to_set(),
                current_dir: match self.current_dir {
                    Some(d) => Some(d@),
                    None => None,
                },
            },
        )
    }

    fn path_exists(&self, path: &str) -> (r: bool) {
        contains_text(&self.existing, path)
    }

    fn is_dir(&self, path: &str) -> (r: bool) {
        contains_text(&self.directories, path)
    }

    fn get_current_dir(&self) -> (r: Result<String, std::io::Error>) {
        match &self.current_dir {
            Some(d) => Ok(d.clone()),
            None => Err(not_found_error()),
        }
    }
}

} // verus!
