use vstd::prelude::*;
use vstd::string::StringExecFns;

verus! {

/// `b` appended to `a` as a path component: a `/` is put between them unless `a` is
/// empty or already ends with one.
pub open spec fn joined(a: Seq<char>, b: Seq<char>) -> Seq<char> {
    if a.len() == 0 || a.last() == '/' {
        a + b
    } else {
        a + seq!['/'] + b
    }
}

/// Appends `b` to the path `a` as a new component.
pub fn join_path(a: &str, b: &str) -> (r: String)
    ensures
        r@ == joined(a@, b@),
{
    let mut r = a.to_owned();
    let n = a.unicode_len();
    if n > 0 && a.get_char(n - 1) != '/' {
        proof { reveal_strlit("/"); }
        r.append("/");
    }
    r.append(b);
    r
}

/// The files that exist on disk, as a list of their paths: the view of the file
/// system against which icons are looked up.
pub struct FileSet {
    paths: Vec<String>,
}

impl FileSet {
    /// The paths in this set.
    pub closed spec fn paths_view(&self) -> Seq<Seq<char>> {
        self.paths@.map_values(|p: String| p@)
    }

    /// Whether a path is in this set.
    pub open spec fn has(&self, p: Seq<char>) -> bool {
        self.paths_view().contains(p)
    }

    /// A set holding the given paths.
    pub fn new(paths: Vec<String>) -> (r: FileSet)
        ensures
            r.paths_view() == paths@.map_values(|p: String| p@),
    {
        FileSet { paths }
    }

    /// A set holding no path.
    pub fn empty() -> (r: FileSet)
        ensures
            forall|p: Seq<char>| !r.has(p),
    {
        let r = FileSet { paths: Vec::new() };
        assert(r.paths_view().len() == 0);
        r
    }

    /// Adds a path to this set.
    pub fn insert(&mut self, path: String)
        ensures
            forall|p: Seq<char>| final(self).has(p) <==> (old(self).has(p) || p == path@),
    {
        let ghost before = self.paths_view();
        self.paths.push(path);
        assert(self.paths_view() =~= before.push(path@));
        assert forall|p: Seq<char>| self.has(p) <==> (before.contains(p) || p == path@) by {
            if before.contains(p) {
                let i = choose|i: int| 0 <= i < before.len() && before[i] == p;
                assert(self.paths_view()[i] == p);
            }
            if self.has(p) && p != path@ {
                let i = choose|i: int|
                    0 <= i < self.paths_view().len() && self.paths_view()[i] == p;
                assert(before[i] == p);
            }
            if p == path@ {
                assert(self.paths_view()[before.len() as int] == p);
            }
        }
    }

    /// Whether a path is in this set.
    pub fn contains(&self, path: &String) -> (r: bool)
        ensures
            r == self.has(path@),
    {
        let mut i: usize = 0;
        while i < self.paths.len()
            invariant
                i <= self.paths@.len(),
                forall|j: int| 0 <= j < i ==> self.paths_view()[j] != path@,
            decreases self.paths@.len() - i,
        {
            if self.paths[i] == *path {
                assert(self.paths_view()[i as int] == path@);
                return true;
            }
            i = i + 1;
        }
        assert(!self.paths_view().contains(path@));
        false
    }
}

} // verus!
