//! The file registry: stable integer ids for files, the maps between paths and
//! ids in both directions, and the kind of root each file belongs to.
//!
//! Paths are strings with `/` between components. Every path is normalized
//! before it is stored or looked up.

use crate::ids::FileId;
use crate::persistent::{
    id_entries, ids_clone, ids_get, ids_insert, ids_new, number_entries, numbers_clone,
    numbers_get, numbers_insert, numbers_new, text_entries, texts_clone, texts_get, texts_insert,
    texts_new,
};
use crate::split::{
    lemma_pieces_append, lemma_pieces_join, lemma_pieces_no_sep, lemma_pieces_nonempty, no_sep,
    pieces,
};
use vstd::prelude::*;
use vstd::string::*;

verus! {

/// The kind of root a file belongs to.
#[derive(Debug, Clone, Copy, PartialEq, Eq, Structural)]
pub enum Root {
    /// The writable workspace.
    Workspace,
    /// A read-only library.
    Lib,
}

/// The kind of root that a stored number stands for.
pub open spec fn root_of_code(code: u32) -> Root {
    if code == 0 {
        Root::Workspace
    } else {
        Root::Lib
    }
}

/// The kinds of root that a map of stored numbers stands for.
pub open spec fn roots_of(codes: Map<u32, u32>) -> Map<u32, Root> {
    Map::new(|id: u32| codes.contains_key(id), |id: u32| root_of_code(codes[id]))
}

/// What one more piece does to the components kept so far: an empty piece and
/// `.` change nothing, `..` drops the last component if there is one, any other
/// piece is kept.
pub open spec fn collapse_step(kept: Seq<Seq<char>>, piece: Seq<char>) -> Seq<Seq<char>> {
    if piece.len() == 0 || piece == seq!['.'] {
        kept
    } else if piece == seq!['.', '.'] {
        if kept.len() > 0 {
            kept.drop_last()
        } else {
            kept
        }
    } else {
        kept.push(piece)
    }
}

/// The components that remain when the pieces are taken in from left to right.
pub open spec fn collapse(pieces: Seq<Seq<char>>) -> Seq<Seq<char>>
    decreases pieces.len(),
{
    if pieces.len() == 0 {
        Seq::<Seq<char>>::empty()
    } else {
        collapse_step(collapse(pieces.drop_last()), pieces.last())
    }
}

/// The components written out with one separator between neighbours.
pub open spec fn join_components(comps: Seq<Seq<char>>) -> Seq<char>
    decreases comps.len(),
{
    if comps.len() == 0 {
        Seq::<char>::empty()
    } else if comps.len() == 1 {
        comps[0]
    } else {
        join_components(comps.drop_last()) + seq!['/'] + comps.last()
    }
}

/// Whether the path starts at the root.
pub open spec fn is_absolute(s: Seq<char>) -> bool {
    s.len() > 0 && s[0] == '/'
}

/// The normal form of a path: repeated separators and `.` are dropped, `..`
/// removes the component before it (and is dropped where there is none), a
/// leading separator is kept.
pub open spec fn normalize_spec(s: Seq<char>) -> Seq<char> {
    let body = join_components(collapse(pieces(s, '/')));
    if is_absolute(s) {
        seq!['/'] + body
    } else {
        body
    }
}

/// Whether a text is a component of a path in normal form: not empty, without
/// separator, and neither `.` nor `..`.
pub open spec fn is_component(c: Seq<char>) -> bool {
    &&& c.len() > 0
    &&& no_sep(c, '/')
    &&& c != seq!['.']
    &&& c != seq!['.', '.']
}

/// Whether every text of a list is a component of a path in normal form.
pub open spec fn all_components(comps: Seq<Seq<char>>) -> bool {
    forall|k: int| 0 <= k < comps.len() ==> is_component(#[trigger] comps[k])
}

/// What survives `collapse` of pieces without separator are components.
pub proof fn lemma_collapse_gives_components(ps: Seq<Seq<char>>)
    requires
        forall|k: int| 0 <= k < ps.len() ==> no_sep(#[trigger] ps[k], '/'),
    ensures
        all_components(collapse(ps)),
    decreases ps.len(),
{
    if ps.len() > 0 {
        let init = ps.drop_last();
        assert forall|k: int| 0 <= k < init.len() implies no_sep(#[trigger] init[k], '/') by {
            assert(init[k] == ps[k]);
        }
        lemma_collapse_gives_components(init);
        let before = collapse(init);
        let after = collapse(ps);
        assert(after == collapse_step(before, ps.last()));
        assert(no_sep(ps[ps.len() - 1], '/'));
        assert forall|k: int| 0 <= k < after.len() implies is_component(#[trigger] after[k]) by {
            if k < before.len() {
                assert(after[k] == before[k]);
            } else {
                assert(after[k] == ps.last());
            }
        }
    }
}

/// Components written out with separators between them fall into the same
/// components again.
pub proof fn lemma_pieces_of_join(comps: Seq<Seq<char>>)
    requires
        all_components(comps),
        comps.len() > 0,
    ensures
        pieces(join_components(comps), '/') == comps,
    decreases comps.len(),
{
    let last = comps[comps.len() - 1];
    assert(is_component(last));
    if comps.len() == 1 {
        lemma_pieces_append(Seq::<char>::empty(), last, '/');
        assert(Seq::<char>::empty() + last =~= last);
        let p = pieces(Seq::<char>::empty(), '/');
        assert(p =~= seq![Seq::<char>::empty()]);
        assert(p.drop_last().push(p.last() + last) =~= seq![last]);
        assert(comps =~= seq![last]);
    } else {
        let init = comps.drop_last();
        assert(all_components(init)) by {
            assert forall|k: int| 0 <= k < init.len() implies is_component(#[trigger] init[k]) by {
                assert(init[k] == comps[k]);
            }
        }
        lemma_pieces_of_join(init);
        lemma_pieces_join(join_components(init), last, '/');
        assert(init.push(last) =~= comps);
    }
}

/// Components stay as they are when they are taken in as pieces, also behind an
/// empty piece.
pub proof fn lemma_collapse_of_components(comps: Seq<Seq<char>>)
    requires
        all_components(comps),
    ensures
        collapse(comps) == comps,
        collapse(seq![Seq::<char>::empty()] + comps) == comps,
    decreases comps.len(),
{
    let lead = seq![Seq::<char>::empty()];
    if comps.len() == 0 {
        assert(lead + comps =~= lead);
        assert(lead.drop_last() =~= Seq::<Seq<char>>::empty());
        assert(collapse(lead.drop_last()) =~= Seq::<Seq<char>>::empty());
        assert(collapse(lead) =~= comps);
        assert(collapse(comps) =~= comps);
    } else {
        let init = comps.drop_last();
        let last = comps[comps.len() - 1];
        assert(is_component(last));
        assert(all_components(init)) by {
            assert forall|k: int| 0 <= k < init.len() implies is_component(#[trigger] init[k]) by {
                assert(init[k] == comps[k]);
            }
        }
        lemma_collapse_of_components(init);
        assert((lead + comps).drop_last() =~= lead + init);
        assert((lead + comps).last() == last);
        assert(init.push(last) =~= comps);
    }
}

/// Bringing a path to normal form twice gives what doing it once gives.
pub proof fn lemma_normalize_idempotent(s: Seq<char>)
    ensures
        normalize_spec(normalize_spec(s)) == normalize_spec(s),
{
    lemma_pieces_no_sep(s, '/');
    lemma_collapse_gives_components(pieces(s, '/'));
    let comps = collapse(pieces(s, '/'));
    let body = join_components(comps);
    let n = normalize_spec(s);
    lemma_collapse_of_components(comps);
    if comps.len() > 0 {
        lemma_pieces_of_join(comps);
        assert(is_component(comps[0]));
        lemma_join_starts(comps);
    } else {
        assert(pieces(body, '/') =~= seq![Seq::<char>::empty()]);
        assert(seq![Seq::<char>::empty()] + comps =~= seq![Seq::<char>::empty()]);
    }
    if is_absolute(s) {
        assert(n[0] == '/');
        // the separator in front makes an empty piece in front
        assert(no_sep(Seq::<char>::empty(), '/'));
        if comps.len() > 0 {
            lemma_pieces_front(body);
        } else {
            assert(n =~= seq!['/']);
            assert(n.drop_last() =~= Seq::<char>::empty());
            assert(n.last() == '/');
            assert(pieces(Seq::<char>::empty(), '/') =~= seq![Seq::<char>::empty()]);
            assert(pieces(n, '/') =~= seq![Seq::<char>::empty(), Seq::<char>::empty()]);
            let two = seq![Seq::<char>::empty(), Seq::<char>::empty()];
            assert(two.drop_last() =~= seq![Seq::<char>::empty()]);
            assert(collapse(two) =~= Seq::<Seq<char>>::empty());
        }
    } else {
        assert(n == body);
    }
}

/// Components written out start with the first character of the first of
/// them, which is no separator.
proof fn lemma_join_starts(comps: Seq<Seq<char>>)
    requires
        all_components(comps),
        comps.len() > 0,
    ensures
        join_components(comps).len() > 0,
        join_components(comps)[0] == comps[0][0],
        join_components(comps)[0] != '/',
    decreases comps.len(),
{
    assert(is_component(comps[0]));
    if comps.len() > 1 {
        let init = comps.drop_last();
        assert(all_components(init)) by {
            assert forall|k: int| 0 <= k < init.len() implies is_component(#[trigger] init[k]) by {
                assert(init[k] == comps[k]);
            }
        }
        lemma_join_starts(init);
        assert(init[0] == comps[0]);
    }
}

/// A separator in front of a text makes an empty piece in front of its pieces.
proof fn lemma_pieces_front(t: Seq<char>)
    ensures
        pieces(seq!['/'] + t, '/') == seq![Seq::<char>::empty()] + pieces(t, '/'),
    decreases t.len(),
{
    let lead = seq![Seq::<char>::empty()];
    if t.len() == 0 {
        let n = seq!['/'] + t;
        assert(n.drop_last() =~= Seq::<char>::empty());
        assert(n.last() == '/');
        assert(pieces(Seq::<char>::empty(), '/') =~= lead);
        assert(pieces(n, '/') =~= lead.push(Seq::<char>::empty()));
        assert(pieces(t, '/') =~= lead);
        assert(lead + lead =~= lead.push(Seq::<char>::empty()));
    } else {
        lemma_pieces_front(t.drop_last());
        lemma_pieces_nonempty(t.drop_last(), '/');
        assert((seq!['/'] + t).drop_last() =~= seq!['/'] + t.drop_last());
        assert((seq!['/'] + t).last() == t.last());
        let p = pieces(t.drop_last(), '/');
        if t.last() == '/' {
            assert((lead + p).push(Seq::<char>::empty()) =~= lead + p.push(Seq::<char>::empty()));
        } else {
            assert((lead + p).drop_last() =~= lead + p.drop_last());
            assert((lead + p).last() == p.last());
            assert((lead + p.drop_last()).push(p.last().push(t.last())) =~= lead
                + p.drop_last().push(p.last().push(t.last())));
        }
    }
}

/// No component that survives `collapse` is empty, `.` or `..`.
pub proof fn lemma_collapse_components(pieces: Seq<Seq<char>>)
    ensures
        forall|k: int|
            0 <= k < collapse(pieces).len() ==> {
                &&& (#[trigger] collapse(pieces)[k]).len() > 0
                &&& collapse(pieces)[k] != seq!['.']
                &&& collapse(pieces)[k] != seq!['.', '.']
            },
    decreases pieces.len(),
{
    if pieces.len() > 0 {
        lemma_collapse_components(pieces.drop_last());
        let before = collapse(pieces.drop_last());
        let after = collapse(pieces);
        assert(after == collapse_step(before, pieces.last()));
        assert forall|k: int| 0 <= k < after.len() implies {
            &&& (#[trigger] after[k]).len() > 0
            &&& after[k] != seq!['.']
            &&& after[k] != seq!['.', '.']
        } by {
            if k < before.len() {
                assert(after[k] == before[k]);
            } else {
                assert(after[k] == pieces.last());
            }
        }
    }
}

spec fn ranges_match(path: Seq<char>, ranges: Seq<(usize, usize)>, comps: Seq<Seq<char>>) -> bool {
    &&& ranges.len() == comps.len()
    &&& forall|k: int|
        0 <= k < ranges.len() ==> {
            &&& (#[trigger] ranges[k]).0 <= ranges[k].1 <= path.len()
            &&& path.subrange(ranges[k].0 as int, ranges[k].1 as int) == comps[k]
        }
}

fn take_piece(path: &str, kept: &mut Vec<(usize, usize)>, from: usize, to: usize)
    requires
        from <= to <= path@.len(),
        exists|comps: Seq<Seq<char>>| ranges_match(path@, old(kept)@, comps),
    ensures
        forall|comps: Seq<Seq<char>>|
            ranges_match(path@, old(kept)@, comps) ==> ranges_match(
                path@,
                final(kept)@,
                collapse_step(comps, path@.subrange(from as int, to as int)),
            ),
{
    let ghost piece = path@.subrange(from as int, to as int);
    let len: usize = to - from;
    if len == 0 {
        return ;
    }
    let first = path.get_char(from);
    if len == 1 && first == '.' {
        assert(piece =~= seq!['.']);
        return ;
    }
    if len == 2 && first == '.' {
        let second = path.get_char(from + 1);
        if second == '.' {
            assert(piece =~= seq!['.', '.']);
            if kept.len() > 0 {
                kept.pop();
            }
            return ;
        }
    }
    assert(piece != seq!['.']) by {
        if piece == seq!['.'] {
            assert(piece.len() == 1);
            assert(piece[0] == '.');
        }
    }
    assert(piece != seq!['.', '.']) by {
        if piece == seq!['.', '.'] {
            assert(piece.len() == 2);
            assert(piece[0] == '.');
            assert(piece[1] == '.');
        }
    }
    kept.push((from, to));
}

/// Brings a path to its normal form.
#[verifier::rlimit(60)]
pub fn normalize(path: &str) -> (ret: String)
    ensures
        ret@ == normalize_spec(path@),
{
    let n = path.unicode_len();
    let mut kept: Vec<(usize, usize)> = Vec::new();
    let mut start: usize = 0;
    let mut i: usize = 0;
    proof {
        assert(path@.take(0) =~= Seq::<char>::empty());
        assert(pieces(path@.take(0), '/').drop_last() =~= Seq::<Seq<char>>::empty());
        assert(path@.subrange(0, 0) =~= Seq::<char>::empty());
    }
    while i < n
        invariant
            n == path@.len(),
            start <= i <= n,
            ranges_match(path@, kept@, collapse(pieces(path@.take(i as int), '/').drop_last())),
            path@.subrange(start as int, i as int) == pieces(path@.take(i as int), '/').last(),
        decreases n - i,
    {
        let c = path.get_char(i);
        proof {
            let before = path@.take(i as int);
            let after = path@.take(i + 1);
            lemma_pieces_nonempty(before, '/');
            assert(after.drop_last() =~= before);
            assert(after.last() == c);
            if c == '/' {
                assert(pieces(after, '/').drop_last() =~= pieces(before, '/'));
                assert(pieces(before, '/').drop_last().push(pieces(before, '/').last())
                    =~= pieces(before, '/'));
                assert(path@.subrange(i + 1, i + 1) =~= Seq::<char>::empty());
            } else {
                assert(pieces(after, '/').drop_last() =~= pieces(before, '/').drop_last());
                assert(path@.subrange(start as int, i + 1) =~= path@.subrange(
                    start as int,
                    i as int,
                ).push(c));
            }
        }
        if c == '/' {
            take_piece(path, &mut kept, start, i);
            start = i + 1;
        }
        i = i + 1;
    }
    proof {
        assert(path@.take(n as int) =~= path@);
        lemma_pieces_nonempty(path@, '/');
    }
    take_piece(path, &mut kept, start, n);
    let ghost comps = collapse(pieces(path@, '/'));
    assert(ranges_match(path@, kept@, comps));
    let mut ret = String::new();
    if n > 0 && path.get_char(0) == '/' {
        ret.append("/");
    }
    proof {
        reveal_strlit("/");
        assert("/"@ =~= seq!['/']);
    }
    let ghost lead = ret@;
    assert(normalize_spec(path@) == lead + join_components(comps));
    let mut k: usize = 0;
    assert(comps.take(0) =~= Seq::<Seq<char>>::empty());
    while k < kept.len()
        invariant
            k <= kept.len(),
            ranges_match(path@, kept@, comps),
            ret@ == lead + join_components(comps.take(k as int)),
            "/"@ == seq!['/'],
        decreases kept.len() - k,
    {
        let (from, to) = kept[k];
        proof {
            let upto = comps.take(k + 1);
            assert(upto.drop_last() =~= comps.take(k as int));
            assert(upto.last() == comps[k as int]);
            assert(kept@[k as int].0 == from);
        }
        if k > 0 {
            ret.append("/");
        }
        ret.append(path.substring_char(from, to));
        proof {
            if k == 0 {
                assert(comps.take(1)[0] == comps[0]);
                assert(join_components(comps.take(0)) =~= Seq::<char>::empty());
                assert(ret@ =~= lead + join_components(comps.take(1)));
            } else {
                assert(ret@ =~= lead + join_components(comps.take(k + 1)));
            }
        }
        k = k + 1;
    }
    assert(comps.take(kept.len() as int) =~= comps);
    ret
}

/// What a registry holds, as mathematical maps.
pub struct PathMapView {
    /// The id that the next new path gets.
    pub next_id: nat,
    /// From each registered path to its id.
    pub ids: Map<Seq<char>, u32>,
    /// From each issued id to its path.
    pub paths: Map<u32, Seq<char>>,
    /// From each issued id to the kind of its root.
    pub roots: Map<u32, Root>,
}

impl PathMapView {
    /// The registry without files: the first id it issues is 1.
    pub open spec fn empty() -> PathMapView {
        PathMapView { next_id: 1, ids: Map::empty(), paths: Map::empty(), roots: Map::empty() }
    }

    /// The two directions agree, every id from 1 up to the last one issued is
    /// in use and no other, every id has a root, and every path is stored in
    /// its normal form.
    pub open spec fn wf(self) -> bool {
        &&& 1 <= self.next_id <= u32::MAX
        &&& forall|id: u32| self.paths.contains_key(id) <==> 1 <= id < self.next_id
        &&& forall|id: u32| self.roots.contains_key(id) <==> self.paths.contains_key(id)
        &&& forall|id: u32|
            (#[trigger] self.paths.contains_key(id)) ==> self.ids.contains_key(self.paths[id])
                && self.ids[self.paths[id]] == id
        &&& forall|p: Seq<char>|
            (#[trigger] self.ids.contains_key(p)) ==> self.paths.contains_key(self.ids[p])
                && self.paths[self.ids[p]] == p
        &&& forall|p: Seq<char>| (#[trigger] self.ids.contains_key(p)) ==> normalize_spec(p) == p
    }

    /// Whether the registry can take `path`: it holds the path already, or
    /// has an id left for it.
    pub open spec fn has_room_for(self, path: Seq<char>) -> bool {
        self.ids.contains_key(normalize_spec(path)) || self.next_id < u32::MAX
    }

    /// The registry after `path`, already in normal form, was registered under
    /// the next free id.
    pub open spec fn with(self, path: Seq<char>, root: Root) -> PathMapView {
        PathMapView {
            next_id: self.next_id + 1,
            ids: self.ids.insert(path, self.next_id as u32),
            paths: self.paths.insert(self.next_id as u32, path),
            roots: self.roots.insert(self.next_id as u32, root),
        }
    }

    /// The id under which `path` is registered, if it is.
    pub open spec fn id_of(self, path: Seq<char>) -> Option<FileId> {
        if self.ids.contains_key(normalize_spec(path)) {
            Some(FileId(self.ids[normalize_spec(path)]))
        } else {
            None
        }
    }
}

/// The file registry.
#[derive(Debug)]
pub struct PathMap {
    next_id: u32,
    path2id: im::HashMap<String, u32>,
    id2path: im::HashMap<u32, String>,
    id2root: im::HashMap<u32, u32>,
}

impl View for PathMap {
    type V = PathMapView;

    closed spec fn view(&self) -> PathMapView {
        PathMapView {
            next_id: self.next_id as nat,
            ids: id_entries(self.path2id),
            paths: text_entries(self.id2path),
            roots: roots_of(number_entries(self.id2root)),
        }
    }
}

impl Default for PathMap {
    /// The empty registry: the first id it issues is 1.
    fn default() -> (m: PathMap)
        ensures
            m.wf(),
            m@ == PathMapView::empty(),
    {
        let m = PathMap {
            next_id: 1,
            path2id: ids_new(),
            id2path: texts_new(),
            id2root: numbers_new(),
        };
        assert(m@.roots =~= Map::<u32, Root>::empty());
        m
    }
}

impl Clone for PathMap {
    /// A copy of the registry. The copy shares structure with the registry it
    /// was taken from, and neither sees what is registered in the other
    /// afterwards.
    fn clone(&self) -> (copy: PathMap)
        ensures
            copy@ == self@,
    {
        PathMap {
            next_id: self.next_id,
            path2id: ids_clone(&self.path2id),
            id2path: texts_clone(&self.id2path),
            id2root: numbers_clone(&self.id2root),
        }
    }
}

impl PathMap {
    /// The invariant of the registry.
    pub open spec fn wf(&self) -> bool {
        self@.wf()
    }

    /// Registers `path` under `root` unless its normal form is registered
    /// already. Returns whether an id was issued, and the id of the path.
    #[verifier::rlimit(60)]
    pub fn get_or_insert(&mut self, path: &str, root: Root) -> (res: (bool, FileId))
        requires
            old(self).wf(),
            old(self)@.has_room_for(path@),
        ensures
            final(self).wf(),
            res.0 == !old(self)@.ids.contains_key(normalize_spec(path@)),
            !res.0 ==> final(self)@ == old(self)@ && res.1.0 == old(self)@.ids[normalize_spec(
                path@,
            )],
            res.0 ==> final(self)@ == old(self)@.with(normalize_spec(path@), root) && res.1.0
                == old(self)@.next_id,
            final(self)@.id_of(path@) == Some(res.1),
            final(self)@.paths[res.1.0] == normalize_spec(path@),
    {
        let normal = normalize(path);
        proof {
            lemma_normalize_idempotent(path@);
        }
        match ids_get(&self.path2id, normal.as_str()) {
            Some(id) => (false, FileId(id)),
            None => {
                let id = self.new_file_id();
                self.insert(normal, id, root);
                (true, id)
            },
        }
    }

    /// The id of a path, if it is registered.
    pub fn get_id(&self, path: &str) -> (res: Option<FileId>)
        ensures
            res == self@.id_of(path@),
    {
        let normal = normalize(path);
        match ids_get(&self.path2id, normal.as_str()) {
            Some(id) => Some(FileId(id)),
            None => None,
        }
    }

    /// Whether the registry issued this id.
    pub fn contains_id(&self, file_id: FileId) -> (res: bool)
        ensures
            res == self@.paths.contains_key(file_id.0),
    {
        texts_get(&self.id2path, file_id.0).is_some()
    }

    /// The path of a file: the normal form under which it was registered,
    /// and under which the file is found again.
    pub fn get_path(&self, file_id: FileId) -> (res: &str)
        requires
            self@.paths.contains_key(file_id.0),
        ensures
            res@ == self@.paths[file_id.0],
            self.wf() ==> self@.id_of(res@) == Some(file_id),
    {
        proof {
            if self.wf() {
                lemma_path_found(self@, file_id.0);
            }
        }
        let found = texts_get(&self.id2path, file_id.0);
        found.unwrap().as_str()
    }

    /// The kind of root that a file belongs to.
    pub fn get_root(&self, file_id: FileId) -> (res: Root)
        requires
            self@.roots.contains_key(file_id.0),
        ensures
            res == self@.roots[file_id.0],
    {
        match numbers_get(&self.id2root, file_id.0) {
            Some(0) => Root::Workspace,
            _ => Root::Lib,
        }
    }

    /// The number of files registered.
    pub fn len(&self) -> (res: u32)
        requires
            self.wf(),
        ensures
            res == self@.next_id - 1,
    {
        self.next_id - 1
    }

    /// The file that the relative path `rel` names when read from the file
    /// `file_id`, if it is registered.
    pub fn resolve(&self, file_id: FileId, rel: &str) -> (res: Option<FileId>)
        requires
            self@.paths.contains_key(file_id.0),
        ensures
            res == self@.id_of(self@.paths[file_id.0] + seq!['/'] + rel@),
    {
        let mut joined = self.get_path(file_id).to_owned();
        proof {
            reveal_strlit("/");
            assert("/"@ =~= seq!['/']);
        }
        joined.append("/");
        joined.append(rel);
        self.get_id(joined.as_str())
    }

    fn insert(&mut self, path: String, file_id: FileId, root: Root)
        ensures
            final(self)@.next_id == old(self)@.next_id,
            final(self)@.ids == old(self)@.ids.insert(path@, file_id.0),
            final(self)@.paths == old(self)@.paths.insert(file_id.0, path@),
            final(self)@.roots == old(self)@.roots.insert(file_id.0, root),
    {
        ids_insert(&mut self.path2id, path.clone(), file_id.0);
        texts_insert(&mut self.id2path, file_id.0, path);
        let code: u32 = match root {
            Root::Workspace => 0,
            Root::Lib => 1,
        };
        numbers_insert(&mut self.id2root, file_id.0, code);
        assert(self@.roots =~= old(self)@.roots.insert(file_id.0, root));
    }

    fn new_file_id(&mut self) -> (id: FileId)
        requires
            old(self)@.next_id < u32::MAX,
        ensures
            id.0 == old(self)@.next_id,
            final(self)@ == (PathMapView { next_id: old(self)@.next_id + 1, ..old(self)@ }),
    {
        let id = FileId(self.next_id);
        self.next_id = self.next_id + 1;
        id
    }
}

/// File ids do not collide: two different registered paths have different ids.
pub proof fn lemma_ids_collision_free(m: PathMapView, p: Seq<char>, q: Seq<char>)
    requires
        m.wf(),
        m.ids.contains_key(p),
        m.ids.contains_key(q),
        p != q,
    ensures
        m.ids[p] != m.ids[q],
{
}

/// File ids are issued in increasing order: a path registered later gets an id
/// above every id issued before, and every earlier path keeps its id.
pub proof fn lemma_ids_monotonic(m: PathMapView, path: Seq<char>, root: Root)
    requires
        m.wf(),
        m.next_id < u32::MAX,
        !m.ids.contains_key(path),
        normalize_spec(path) == path,
    ensures
        m.with(path, root).wf(),
        forall|id: u32| m.paths.contains_key(id) ==> id < m.with(path, root).ids[path],
        forall|p: Seq<char>|
            (#[trigger] m.ids.contains_key(p)) ==> m.with(path, root).ids[p] == m.ids[p],
{
    let after = m.with(path, root);
    let id = m.next_id as u32;
    assert forall|i: u32| #[trigger] after.paths.contains_key(i) implies after.ids.contains_key(
        after.paths[i],
    ) && after.ids[after.paths[i]] == i by {
        if i != id {
            assert(m.paths.contains_key(i));
        }
    }
    assert forall|p: Seq<char>| #[trigger] after.ids.contains_key(p) implies after.paths.contains_key(
        after.ids[p],
    ) && after.paths[after.ids[p]] == p by {
        if p != path {
            assert(m.ids.contains_key(p));
        }
    }
}

/// The path of an issued id is found again under that id, and a path that was
/// never registered is not found.
pub proof fn lemma_path_found(m: PathMapView, id: u32)
    requires
        m.wf(),
        m.paths.contains_key(id),
    ensures
        m.id_of(m.paths[id]) == Some(FileId(id)),
        normalize_spec(m.paths[id]) == m.paths[id],
{
    assert(m.ids.contains_key(m.paths[id]));
}

/// Registering a path in a registry does nothing to a copy that was taken
/// before: the copy finds what it found, and does not find the new path.
pub proof fn lemma_copy_isolated(m: PathMapView, copy: PathMapView, path: Seq<char>, root: Root)
    requires
        m.wf(),
        copy == m,
        !m.ids.contains_key(normalize_spec(path)),
    ensures
        copy.id_of(path) is None,
        m.with(normalize_spec(path), root).id_of(path) == Some(FileId(m.next_id as u32)),
        forall|q: Seq<char>| copy.id_of(q) == m.id_of(q),
{
    lemma_normalize_idempotent(path);
}

/// The ids in use are exactly 1, 2, ... up to the number of files registered.
pub proof fn lemma_ids_dense(m: PathMapView, id: u32)
    requires
        m.wf(),
    ensures
        m.paths.contains_key(id) <==> 1 <= id <= m.next_id - 1,
{
}

} // verus!
