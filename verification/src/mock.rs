//! A list of files with their relative paths, for worlds that are set up in
//! memory.

use crate::fx_set::set_insert;
use crate::ids::FileId;
use crate::rel_path::{file_stem, join, normalize, rel_file_stem, rel_joined, rel_normalized};
use rustc_hash::FxHashSet;
use vstd::prelude::*;
use vstd::string::*;

verus! {

/// The files, in the order in which they were added: the file at place `i` has
/// the id `i + 1`.
#[derive(Debug)]
pub struct FileMap(Vec<(FileId, String)>);

impl Clone for FileMap {
    /// A copy of the map: the same files under the same ids.
    fn clone(&self) -> (copy: FileMap)
        ensures
            copy@ == self@,
    {
        proof {
            use_type_invariant(self);
        }
        let mut files: Vec<(FileId, String)> = Vec::new();
        let mut i: usize = 0;
        while i < self.0.len()
            invariant
                i <= self.0.len(),
                self.inv(),
                files@ == self.0@.take(i as int),
            decreases self.0.len() - i,
        {
            files.push((self.0[i].0, self.0[i].1.clone()));
            assert(self.0@.take(i + 1) =~= self.0@.take(i as int).push(self.0@[i as int]));
            i = i + 1;
        }
        assert(self.0@.take(self.0.len() as int) =~= self.0@);
        FileMap(files)
    }
}

impl Default for FileMap {
    /// The map without files.
    fn default() -> (m: FileMap)
        ensures
            m@ == Seq::<Seq<char>>::empty(),
    {
        FileMap::new()
    }
}

impl View for FileMap {
    type V = Seq<Seq<char>>;

    /// The paths, in the order in which they were added.
    closed spec fn view(&self) -> Seq<Seq<char>> {
        self.0@.map_values(|e: (FileId, String)| e.1@)
    }
}

/// The first place at which `paths` holds `path`, if any.
pub open spec fn first_place(paths: Seq<Seq<char>>, path: Seq<char>) -> Option<int> {
    if exists|i: int| 0 <= i < paths.len() && paths[i] == path {
        Some(choose|i: int| first_at(paths, path, i))
    } else {
        None
    }
}

/// The first file of a list of paths that has the given path, if any: the file
/// at place `i` has the id `i + 1`.
pub open spec fn find_in(paths: Seq<Seq<char>>, path: Seq<char>) -> Option<FileId> {
    match first_place(paths, path) {
        Some(i) => Some(FileId((i + 1) as u32)),
        None => None,
    }
}

/// The file that `rel` names when it is read from the file `id` of a list of
/// paths: `rel` is adjoined to the path of `id`, the result is brought to
/// normal form and looked up.
pub open spec fn resolve_in(paths: Seq<Seq<char>>, id: FileId, rel: Seq<char>) -> Option<FileId> {
    find_in(paths, rel_normalized(rel_joined(paths[id.0 - 1], rel)))
}

/// Whether `i` is the first place at which `paths` holds `path`.
pub open spec fn first_at(paths: Seq<Seq<char>>, path: Seq<char>, i: int) -> bool {
    &&& 0 <= i < paths.len()
    &&& paths[i] == path
    &&& forall|j: int| 0 <= j < i ==> paths[j] != path
}

/// There is at most one first place, and there is one wherever the path occurs.
pub proof fn lemma_first_place(paths: Seq<Seq<char>>, path: Seq<char>, i: int)
    requires
        first_at(paths, path, i),
    ensures
        first_place(paths, path) == Some(i),
{
    let j = choose|j: int| first_at(paths, path, j);
    assert(first_at(paths, path, j));
    if j < i {
        assert(paths[j] != path);
    }
    if i < j {
        assert(paths[i] != path);
    }
}

impl FileMap {
    /// The ids are the places, counted from 1.
    #[verifier::type_invariant]
    spec fn inv(&self) -> bool {
        &&& self.0@.len() < u32::MAX
        &&& forall|i: int| 0 <= i < self.0@.len() ==> (#[trigger] self.0@[i]).0 == FileId((i + 1) as u32)
    }

    /// Whether the map holds a file with this id.
    pub open spec fn has(&self, id: FileId) -> bool {
        1 <= id.0 <= self@.len()
    }

    /// The path of a file that the map holds.
    pub open spec fn path_of(&self, id: FileId) -> Seq<char> {
        self@[id.0 - 1]
    }

    /// The file with the given relative path, if the map holds one.
    pub open spec fn find(&self, path: Seq<char>) -> Option<FileId> {
        find_in(self@, path)
    }

    /// Tells whether the map holds a file with this id.
    pub fn holds(&self, id: FileId) -> (res: bool)
        ensures
            res == self.has(id),
    {
        let n = self.0.len();
        assert(n == self@.len());
        1 <= id.0 && id.0 as usize <= n
    }

    /// The map without files.
    pub fn new() -> (m: FileMap)
        ensures
            m@ == Seq::<Seq<char>>::empty(),
    {
        let m = FileMap(Vec::new());
        assert(m@ =~= Seq::<Seq<char>>::empty());
        m
    }

    /// The number of files that the map holds.
    pub fn len(&self) -> (n: usize)
        ensures
            n == self@.len(),
    {
        let n = self.0.len();
        assert(self.0@.len() == self@.len());
        n
    }

    /// Adds a file and returns its id: the number of files that the map holds
    /// afterwards.
    pub fn add(&mut self, path: String) -> (file_id: FileId)
        requires
            old(self)@.len() + 1 < u32::MAX,
        ensures
            final(self)@ == old(self)@.push(path@),
            file_id.0 == old(self)@.len() + 1,
    {
        proof {
            use_type_invariant(&*self);
        }
        let mut files: Vec<(FileId, String)> = Vec::new();
        std::mem::swap(&mut self.0, &mut files);
        let n = files.len();
        assert(n == old(self)@.len());
        let file_id = FileId((n + 1) as u32);
        files.push((file_id, path));
        std::mem::swap(&mut self.0, &mut files);
        assert(self@ =~= old(self)@.push(path@));
        file_id
    }

    /// The ids of all files.
    pub fn files(&self) -> (ids: FxHashSet<u32>)
        ensures
            forall|id: u32| ids@.contains(id) <==> self.has(FileId(id)),
    {
        broadcast use vstd::std_specs::hash::group_hash_axioms;

        proof {
            use_type_invariant(self);
        }

        let mut ids: FxHashSet<u32> = FxHashSet::default();
        let mut i: usize = 0;
        assert(self.0@.len() == self@.len());
        while i < self.0.len()
            invariant
                i <= self.0.len(),
                self.inv(),
                forall|id: u32| ids@.contains(id) <==> 1 <= id <= i,
            decreases self.0.len() - i,
        {
            set_insert(&mut ids, self.0[i].0.0);
            i = i + 1;
        }
        ids
    }

    /// The file with the given relative path, if the map holds one; where two
    /// files have the path, the one that was added first.
    pub fn lookup(&self, path: &str) -> (res: Option<FileId>)
        ensures
            res == self.find(path@),
    {
        proof {
            use_type_invariant(self);
        }
        let mut i: usize = 0;
        assert(self.0@.len() == self@.len());
        while i < self.0.len()
            invariant
                i <= self.0.len(),
                self.inv(),
                self.0@.len() == self@.len(),
                forall|j: int| 0 <= j < i ==> self@[j] != path@,
            decreases self.0.len() - i,
        {
            if same_path(&self.0[i].1, path) {
                proof {
                    lemma_first_place(self@, path@, i as int);
                }
                return Some(self.0[i].0);
            }
            i = i + 1;
        }
        None
    }

    /// The id of the file with the given path, which starts with `/`; the rest
    /// is the path relative to the root.
    pub fn file_id(&self, path: &str) -> (file_id: FileId)
        requires
            path@.len() > 0 && path@[0] == '/',
            self.find(path@.skip(1)) is Some,
        ensures
            Some(file_id) == self.find(path@.skip(1)),
    {
        let n = path.unicode_len();
        let rel = path.substring_char(1, n);
        assert(rel@ =~= path@.skip(1));
        self.lookup(rel).unwrap()
    }

    /// The path of a file, relative to the root.
    pub fn path(&self, id: FileId) -> (path: &str)
        requires
            self.has(id),
        ensures
            path@ == self.path_of(id),
    {
        assert(self.0@.len() == self@.len());
        let i = (id.0 - 1) as usize;
        self.0[i].1.as_str()
    }

    /// The stem of the file name of a file, if its path has one.
    pub fn try_file_stem(&self, id: FileId) -> (stem: Option<String>)
        requires
            self.has(id),
        ensures
            stem.is_some() == rel_file_stem(self.path_of(id)).is_some(),
            stem matches Some(s) ==> Some(s@) == rel_file_stem(self.path_of(id)),
    {
        match file_stem(self.path(id)) {
            Some(_) => Some(self.file_stem(id)),
            None => None,
        }
    }

    /// The stem of the file name of a file whose path has one.
    pub fn file_stem(&self, id: FileId) -> (stem: String)
        requires
            self.has(id),
            rel_file_stem(self.path_of(id)) is Some,
        ensures
            Some(stem@) == rel_file_stem(self.path_of(id)),
    {
        file_stem(self.path(id)).unwrap()
    }

    /// The file that the relative path `rel` names when it is read from the
    /// file `id`: `rel` is adjoined to the path of `id`, the result is brought
    /// to normal form and looked up.
    pub fn resolve(&self, id: FileId, rel: &str) -> (res: Option<FileId>)
        requires
            self.has(id),
        ensures
            res == resolve_in(self@, id, rel@),
    {
        let joined = join(self.path(id), rel);
        let path = normalize(joined.as_str());
        self.lookup(path.as_str())
    }
}

fn same_path(a: &String, b: &str) -> (res: bool)
    ensures
        res == (a@ == b@),
{
    let other = b.to_owned();
    *a == other
}

} // verus!
