//! Worlds set up from files held in memory.

use crate::fixture::{
    byte_offset, entry_views, extract_offset, extractable, first_marker_at, has_marker,
    lemma_first_marker_unique, parse_fixture, parse_fixture_spec, try_extract_offset,
    without_marker, FixtureEntry,
};
use crate::ids::{FileId, SourceRootId, WORKSPACE};
use crate::mock::FileMap;
use crate::resolver::{FileResolver, ResolverView};
use crate::text::TextUnit;
use crate::world::{AddFileView, Analysis, AnalysisChange, AnalysisHost, ChangeView, WorldView};
use std::sync::Arc;
use vstd::prelude::*;
use vstd::string::*;

verus! {

/// A position in a file.
#[derive(Debug, Clone, Copy, PartialEq, Eq, Structural)]
pub struct FilePosition {
    pub file_id: FileId,
    pub offset: TextUnit,
}

/// A list of files, each with its path and its text, from which a world is made.
/// The file at place `i` gets the id `i + 1`.
#[derive(Debug)]
pub struct MockAnalysis {
    files: Vec<(String, String)>,
}

impl View for MockAnalysis {
    type V = Seq<(Seq<char>, Seq<char>)>;

    /// The files, path and text, in the order in which they were added.
    closed spec fn view(&self) -> Seq<(Seq<char>, Seq<char>)> {
        self.files@.map_values(|f: (String, String)| (f.0@, f.1@))
    }
}

/// The additions that put the files of a mock into the workspace: each under
/// its id, with its path taken from behind the leading separator.
pub open spec fn mock_added(files: Seq<(Seq<char>, Seq<char>)>) -> Seq<AddFileView> {
    Seq::new(
        files.len(),
        |i: int|
            AddFileView {
                root: SourceRootId(WORKSPACE),
                file_id: FileId((i + 1) as u32),
                path: files[i].0.skip(1),
                text: files[i].1,
            },
    )
}

/// The paths of the files of a mock, each taken from behind the leading
/// separator: what the file resolver of the mock's world holds.
pub open spec fn mock_paths(files: Seq<(Seq<char>, Seq<char>)>) -> Seq<Seq<char>> {
    Seq::new(files.len(), |i: int| files[i].0.skip(1))
}

/// The one change set that makes the world of a mock: the files, and the file
/// resolver over their paths.
pub open spec fn mock_change(files: Seq<(Seq<char>, Seq<char>)>) -> ChangeView {
    ChangeView {
        added: mock_added(files),
        resolver: Some(ResolverView::Files(mock_paths(files))),
        ..ChangeView::empty()
    }
}

/// The world made from the files of a mock.
pub open spec fn mock_world(files: Seq<(Seq<char>, Seq<char>)>) -> WorldView {
    WorldView::empty().apply(mock_change(files))
}

/// Whether every path starts with a separator.
pub open spec fn rooted(files: Seq<(Seq<char>, Seq<char>)>) -> bool {
    forall|i: int| 0 <= i < files.len() ==> (#[trigger] files[i]).0.len() > 0 && files[i].0[0] == '/'
}

impl Default for MockAnalysis {
    /// The mock without files.
    fn default() -> (mock: MockAnalysis)
        ensures
            mock@ == Seq::<(Seq<char>, Seq<char>)>::empty(),
    {
        MockAnalysis::new()
    }
}

/// Whether the file at place `i` is the one file of the list whose text holds
/// a cursor marker, at place `k` of the text.
pub open spec fn marked_at(files: Seq<(Seq<char>, Seq<char>)>, i: int, k: int) -> bool {
    &&& 0 <= i < files.len()
    &&& first_marker_at(files[i].1, k)
    &&& byte_offset(files[i].1, k) <= u32::MAX
    &&& forall|j: int| 0 <= j < files.len() && j != i ==> !has_marker((#[trigger] files[j]).1)
}

/// The files with the marker taken out of the one that holds it.
pub open spec fn unmarked(files: Seq<(Seq<char>, Seq<char>)>, i: int, k: int) -> Seq<
    (Seq<char>, Seq<char>),
> {
    files.update(i, (files[i].0, without_marker(files[i].1, k)))
}

impl MockAnalysis {
    /// Creates a mock from a fixture, a text of the following form, in which
    /// a line that starts with `//-` names a file and the lines that follow
    /// are the text of the file:
    ///
    /// ```notrust
    /// //- /main.rs
    /// mod foo;
    /// fn main() {}
    ///
    /// //- /foo.rs
    /// struct Baz;
    /// ```
    pub fn with_files(fixture: &str) -> (mock: MockAnalysis)
        requires
            parse_fixture_spec(fixture@).len() < u32::MAX,
        ensures
            mock@ == parse_fixture_spec(fixture@),
    {
        let mut res = MockAnalysis::new();
        let entries = parse_fixture(fixture);
        let ghost files = entry_views(entries@);
        let mut i: usize = 0;
        assert(files.take(0) =~= Seq::<(Seq<char>, Seq<char>)>::empty());
        while i < entries.len()
            invariant
                i <= entries.len(),
                files == entry_views(entries@),
                files.len() < u32::MAX,
                res@ == files.take(i as int),
            decreases entries.len() - i,
        {
            let entry = &entries[i];
            res.add_file(entry.meta.as_str(), entry.text.as_str());
            proof {
                assert(files.take(i + 1) =~= files.take(i as int).push(files[i as int]));
            }
            i = i + 1;
        }
        proof {
            assert(files.take(entries.len() as int) =~= files);
        }
        res
    }

    /// Same as `with_files`, for a fixture in which exactly one file holds a
    /// cursor marker; the position of the marker is returned as well.
    #[verifier::rlimit(60)]
    pub fn with_files_and_position(fixture: &str) -> (res: (MockAnalysis, FilePosition))
        requires
            parse_fixture_spec(fixture@).len() < u32::MAX,
            exists|i: int, k: int| marked_at(parse_fixture_spec(fixture@), i, k),
        ensures
            exists|i: int, k: int|
                {
                    &&& marked_at(parse_fixture_spec(fixture@), i, k)
                    &&& res.0@ == unmarked(parse_fixture_spec(fixture@), i, k)
                    &&& res.1.file_id.0 == i + 1
                    &&& res.1.offset.0 == byte_offset(parse_fixture_spec(fixture@)[i].1, k)
                },
    {
        let mut position: Option<FilePosition> = None;
        let mut res = MockAnalysis::new();
        let entries = parse_fixture(fixture);
        let ghost files = entry_views(entries@);
        let ghost (mi, mk) = choose|i: int, k: int| marked_at(files, i, k);
        let mut j: usize = 0;
        assert(files.take(0) =~= Seq::<(Seq<char>, Seq<char>)>::empty());
        while j < entries.len()
            invariant
                j <= entries.len(),
                files == entry_views(entries@),
                files.len() < u32::MAX,
                marked_at(files, mi, mk),
                j <= mi ==> position is None && res@ == files.take(j as int),
                j > mi ==> res@ == unmarked(files, mi, mk).take(j as int),
                j > mi ==> (position matches Some(p) && p.file_id.0 == mi + 1 && p.offset.0
                    == byte_offset(files[mi].1, mk)),
            decreases entries.len() - j,
        {
            let entry = &entries[j];
            assert(files[j as int] == (entry.meta@, entry.text@));
            let found = try_extract_offset(entry.text.as_str());
            proof {
                if j == mi {
                    assert(crate::fixture::marker_at(entry.text@, mk));
                    if found is None {
                        let k = choose|k: int|
                            first_marker_at(entry.text@, k) && byte_offset(entry.text@, k)
                                > u32::MAX;
                        lemma_first_marker_unique(entry.text@, k, mk);
                    }
                } else {
                    assert(!has_marker(files[j as int].1));
                    if found is Some {
                        let k = choose|k: int| first_marker_at(entry.text@, k);
                        assert(crate::fixture::marker_at(entry.text@, k));
                    }
                }
            }
            if found.is_some() {
                let ghost before = res@;
                let pos = res.add_file_with_position(entry.meta.as_str(), entry.text.as_str());
                proof {
                    let k = choose|k: int|
                        {
                            &&& first_marker_at(entry.text@, k)
                            &&& pos.offset.0 == byte_offset(entry.text@, k)
                            &&& res@ == before.push((entry.meta@, without_marker(entry.text@, k)))
                        };
                    lemma_first_marker_unique(entry.text@, k, mk);
                    assert(unmarked(files, mi, mk).take(j + 1) =~= files.take(j as int).push(
                        (entry.meta@, without_marker(entry.text@, mk)),
                    ));
                }
                position = Some(pos);
            } else {
                res.add_file(entry.meta.as_str(), entry.text.as_str());
                proof {
                    if j < mi {
                        assert(files.take(j + 1) =~= files.take(j as int).push(files[j as int]));
                    } else {
                        assert(unmarked(files, mi, mk).take(j + 1) =~= unmarked(
                            files,
                            mi,
                            mk,
                        ).take(j as int).push(files[j as int]));
                    }
                }
            }
            j = j + 1;
        }
        proof {
            assert(unmarked(files, mi, mk).take(entries.len() as int) =~= unmarked(files, mi, mk));
        }
        let position = position.unwrap();
        (res, position)
    }

    /// The mock without files.
    pub fn new() -> (mock: MockAnalysis)
        ensures
            mock@ == Seq::<(Seq<char>, Seq<char>)>::empty(),
    {
        let mock = MockAnalysis { files: Vec::new() };
        assert(mock@ =~= Seq::<(Seq<char>, Seq<char>)>::empty());
        mock
    }

    /// The number of files that the mock holds.
    pub fn len(&self) -> (n: usize)
        ensures
            n == self@.len(),
    {
        let n = self.files.len();
        assert(self.files@.len() == self@.len());
        n
    }

    /// Adds a file and returns its id: the number of files that the mock holds
    /// afterwards.
    pub fn add_file(&mut self, path: &str, text: &str) -> (file_id: FileId)
        requires
            old(self)@.len() < u32::MAX,
        ensures
            final(self)@ == old(self)@.push((path@, text@)),
            file_id.0 == old(self)@.len() + 1,
    {
        let n = self.files.len();
        assert(n == self@.len());
        let file_id = FileId((n + 1) as u32);
        self.files.push((path.to_owned(), text.to_owned()));
        assert(self@ =~= old(self)@.push((path@, text@)));
        file_id
    }

    /// Adds a file whose text holds a cursor marker. The marker is taken out,
    /// and its place is returned.
    pub fn add_file_with_position(&mut self, path: &str, text: &str) -> (pos: FilePosition)
        requires
            old(self)@.len() < u32::MAX,
            extractable(text@),
        ensures
            pos.file_id.0 == old(self)@.len() + 1,
            exists|i: int|
                {
                    &&& first_marker_at(text@, i)
                    &&& pos.offset.0 == byte_offset(text@, i)
                    &&& final(self)@ == old(self)@.push((path@, without_marker(text@, i)))
                },
    {
        let (offset, text) = extract_offset(text);
        let n = self.files.len();
        assert(n == self@.len());
        let file_id = FileId((n + 1) as u32);
        self.files.push((path.to_owned(), text));
        assert(self@ =~= old(self)@.push((path@, text@)));
        FilePosition { file_id, offset }
    }

    /// The id of the first file that was added under the given path.
    pub fn id_of(&self, path: &str) -> (file_id: FileId)
        requires
            self@.len() < u32::MAX,
            exists|i: int| 0 <= i < self@.len() && self@[i].0 == path@,
        ensures
            1 <= file_id.0 <= self@.len(),
            self@[file_id.0 - 1].0 == path@,
            forall|j: int| 0 <= j < file_id.0 - 1 ==> self@[j].0 != path@,
    {
        let wanted = path.to_owned();
        let mut idx: usize = 0;
        assert(self.files@.len() == self@.len());
        loop
            invariant_except_break
                idx < self.files.len(),
                self.files@.len() == self@.len(),
                self@.len() < u32::MAX,
                wanted@ == path@,
                exists|i: int| idx <= i < self@.len() && self@[i].0 == path@,
                forall|j: int| 0 <= j < idx ==> self@[j].0 != path@,
            ensures
                idx < self.files.len(),
                self@[idx as int].0 == path@,
                forall|j: int| 0 <= j < idx ==> self@[j].0 != path@,
            decreases self.files.len() - idx,
        {
            if self.files[idx].0 == wanted {
                break ;
            }
            proof {
                let i = choose|i: int| idx <= i < self@.len() && self@[i].0 == path@;
                assert(i != idx);
            }
            idx = idx + 1;
        }
        FileId(idx as u32 + 1)
    }

    /// The world that holds the files of the mock, all in the workspace, made
    /// by one change set that also installs the file resolver over the paths
    /// of the files. Every path must start with a separator; what follows it
    /// is the path relative to the root.
    pub fn analysis_host(self) -> (host: AnalysisHost)
        requires
            self@.len() < u32::MAX - 1,
            rooted(self@),
        ensures
            host@ == mock_world(self@),
    {
        let mut host = AnalysisHost::default();
        let mut file_map = FileMap::new();
        let mut change = AnalysisChange::new();
        let mut i: usize = 0;
        assert(self.files@.len() == self@.len());
        assert(mock_added(self@).take(0) =~= Seq::<AddFileView>::empty());
        assert(mock_paths(self@).take(0) =~= Seq::<Seq<char>>::empty());
        while i < self.files.len()
            invariant
                i <= self.files.len(),
                self.files@.len() == self@.len(),
                self@.len() < u32::MAX - 1,
                rooted(self@),
                file_map@ == mock_paths(self@).take(i as int),
                change@ == (ChangeView {
                    added: mock_added(self@).take(i as int),
                    ..ChangeView::empty()
                }),
            decreases self.files.len() - i,
        {
            let path = self.files[i].0.as_str();
            let contents = self.files[i].1.clone();
            assert(self@[i as int].0 == path@);
            let n = path.unicode_len();
            let path = path.substring_char(1, n).to_owned();
            assert(path@ =~= self@[i as int].0.skip(1));
            let file_id = file_map.add(path.clone());
            change.add_file(SourceRootId(WORKSPACE), file_id, path, contents);
            proof {
                assert(mock_added(self@).take(i + 1) =~= mock_added(self@).take(i as int).push(
                    mock_added(self@)[i as int],
                ));
                assert(mock_paths(self@).take(i + 1) =~= mock_paths(self@).take(i as int).push(
                    mock_paths(self@)[i as int],
                ));
            }
            i = i + 1;
        }
        proof {
            assert(mock_added(self@).take(self.files.len() as int) =~= mock_added(self@));
            assert(mock_paths(self@).take(self.files.len() as int) =~= mock_paths(self@));
            assert(host@ == WorldView::empty());
        }
        change.set_file_resolver(FileResolver::Files(Arc::new(file_map)));
        host.apply_change(change);
        host
    }

    /// A snapshot of the world that holds the files of the mock.
    pub fn analysis(self) -> (snapshot: Analysis)
        requires
            self@.len() < u32::MAX - 1,
            rooted(self@),
        ensures
            snapshot@ == mock_world(self@),
    {
        self.analysis_host().analysis()
    }
}

/// Creates a snapshot of the world of a fixture in which exactly one file holds
/// a cursor marker, and returns the position of the marker.
pub fn analysis_and_position(fixture: &str) -> (res: (Analysis, FilePosition))
    requires
        parse_fixture_spec(fixture@).len() < u32::MAX - 1,
        rooted(parse_fixture_spec(fixture@)),
        exists|i: int, k: int| marked_at(parse_fixture_spec(fixture@), i, k),
    ensures
        exists|i: int, k: int|
            {
                &&& marked_at(parse_fixture_spec(fixture@), i, k)
                &&& res.0@ == mock_world(unmarked(parse_fixture_spec(fixture@), i, k))
                &&& res.1.file_id.0 == i + 1
                &&& res.1.offset.0 == byte_offset(parse_fixture_spec(fixture@)[i].1, k)
            },
{
    let (mock, position) = MockAnalysis::with_files_and_position(fixture);
    proof {
        let files = parse_fixture_spec(fixture@);
        let (i, k) = choose|i: int, k: int|
            {
                &&& marked_at(files, i, k)
                &&& mock@ == unmarked(files, i, k)
                &&& position.file_id.0 == i + 1
                &&& position.offset.0 == byte_offset(files[i].1, k)
            };
        assert(rooted(mock@)) by {
            assert forall|j: int| 0 <= j < mock@.len() implies (#[trigger] mock@[j]).0.len() > 0
                && mock@[j].0[0] == '/' by {
                assert(mock@[j].0 == files[j].0);
            }
        }
    }
    (mock.analysis(), position)
}

/// Creates a snapshot of a world with one file, `/main.rs`.
pub fn single_file(code: &str) -> (res: (Analysis, FileId))
    ensures
        res.1 == FileId(1),
        res.0@ == mock_world(seq![("/main.rs"@, code@)]),
        res.0@.read(res.1) == Some(code@),
{
    let mut mock = MockAnalysis::new();
    let file_id = mock.add_file("/main.rs", code);
    proof {
        reveal_strlit("/main.rs");
        assert(mock@ =~= seq![("/main.rs"@, code@)]);
        lemma_mock_read(mock@, 0);
    }
    (mock.analysis(), file_id)
}

/// Creates a snapshot of a world with one file, `/main.rs`, whose text holds a
/// cursor marker, and returns the position of the marker.
pub fn single_file_with_position(code: &str) -> (res: (Analysis, FilePosition))
    requires
        extractable(code@),
    ensures
        res.1.file_id == FileId(1),
        exists|i: int|
            {
                &&& first_marker_at(code@, i)
                &&& res.1.offset.0 == byte_offset(code@, i)
                &&& res.0@ == mock_world(seq![("/main.rs"@, without_marker(code@, i))])
                &&& res.0@.read(res.1.file_id) == Some(without_marker(code@, i))
            },
{
    let mut mock = MockAnalysis::new();
    let pos = mock.add_file_with_position("/main.rs", code);
    proof {
        reveal_strlit("/main.rs");
        let i = choose|i: int|
            {
                &&& first_marker_at(code@, i)
                &&& pos.offset.0 == byte_offset(code@, i)
                &&& mock@ == Seq::<(Seq<char>, Seq<char>)>::empty().push(
                    ("/main.rs"@, without_marker(code@, i)),
                )
            };
        assert(mock@ =~= seq![("/main.rs"@, without_marker(code@, i))]);
        lemma_mock_read(mock@, 0);
    }
    (mock.analysis(), pos)
}

/// The world after the first `n` additions of a mock holds the text of each of
/// the first `n` files under its id.
proof fn lemma_added_texts(files: Seq<(Seq<char>, Seq<char>)>, n: int, i: int)
    requires
        0 <= i < n <= files.len() < u32::MAX,
    ensures
        WorldView::empty().with_added(mock_added(files).take(n)).texts.contains_key((i + 1) as u32),
        WorldView::empty().with_added(mock_added(files).take(n)).texts[(i + 1) as u32] == files[i].1,
    decreases n,
{
    let added = mock_added(files).take(n);
    assert(added.drop_last() =~= mock_added(files).take(n - 1));
    if i < n - 1 {
        lemma_added_texts(files, n - 1, i);
    }
}

/// A world made from a mock shows, for every file of the mock, the text that
/// the file was added with.
pub proof fn lemma_mock_read(files: Seq<(Seq<char>, Seq<char>)>, i: int)
    requires
        0 <= i < files.len() < u32::MAX,
    ensures
        mock_world(files).read(FileId((i + 1) as u32)) == Some(files[i].1),
        mock_world(files).version == 1,
        mock_world(files).resolver == Some(ResolverView::Files(mock_paths(files))),
{
    lemma_added_texts(files, files.len() as int, i);
    crate::world::lemma_apply_version(
        WorldView::empty(),
        mock_change(files),
    );
    assert(mock_added(files).take(files.len() as int) =~= mock_added(files));
    let w = WorldView::empty().with_added(mock_added(files));
    assert(w.with_changed(Seq::empty()) == w);
    assert(w.with_removed(Seq::empty()) == w);
    assert(w.with_libraries(Seq::empty()) == w);
}

} // verus!
