//! The syntax tree of a file: flat arenas of nodes and errors that refer to each
//! other by index, and the text that the ranges of the nodes index into. A tree
//! is built once and only read afterwards.

use crate::builder_model::{lemma_upper_bound, TreeEventView};
use crate::file_builder::{event_views, TreeEvent};
use crate::text::{TextRange, TextUnit};
use crate::tree_log::{
    error_calls, finishes, lemma_errors_below, lemma_open_after, lemma_open_prefix,
    lemma_path_above,
};
use crate::tree_model::{ErrorView, FileView, NodeView, SyntaxKind};
use vstd::prelude::*;
use vstd::string::*;
use vstd::utf8::{encode_utf8, is_char_boundary};

verus! {

/// A token: its kind and its length in bytes.
#[derive(Debug, Clone, Copy, PartialEq, Eq, Structural, Hash)]
pub struct Token {
    pub kind: SyntaxKind,
    pub len: TextUnit,
}

/// The index of a node in its file.
#[derive(Debug, Clone, Copy, PartialEq, Eq, Structural)]
pub struct NodeIdx(pub u32);

/// The index of an error in its file.
#[derive(Debug, Clone, Copy, PartialEq, Eq, Structural)]
pub struct ErrorIdx(pub u32);

/// What the arena holds of a node.
#[derive(Clone, Copy)]
pub struct NodeData {
    pub kind: SyntaxKind,
    pub range: TextRange,
    pub parent: Option<NodeIdx>,
    pub first_child: Option<NodeIdx>,
    pub next_sibling: Option<NodeIdx>,
}

/// What the arena holds of an error.
pub struct SyntaxErrorData {
    pub node: NodeIdx,
    pub message: String,
}

/// An index, where there is one, as an integer.
pub open spec fn link_view(link: Option<NodeIdx>) -> Option<int> {
    match link {
        Some(idx) => Some(idx.0 as int),
        None => None,
    }
}

impl View for NodeData {
    type V = NodeView;

    open spec fn view(&self) -> NodeView {
        NodeView {
            kind: self.kind,
            start: self.range.start_spec(),
            end: self.range.end_spec(),
            parent: link_view(self.parent),
            first_child: link_view(self.first_child),
            next_sibling: link_view(self.next_sibling),
        }
    }
}

impl View for SyntaxErrorData {
    type V = ErrorView;

    open spec fn view(&self) -> ErrorView {
        ErrorView { node: self.node.0 as int, message: self.message@ }
    }
}

/// What a text, its nodes and its errors amount to.
pub open spec fn file_view(
    text: Seq<char>,
    nodes: Seq<NodeData>,
    errors: Seq<SyntaxErrorData>,
) -> FileView {
    FileView {
        text: encode_utf8(text),
        nodes: nodes.map_values(|n: NodeData| n@),
        errors: errors.map_values(|e: SyntaxErrorData| e@),
    }
}

/// `str::get` with a range: the part of the text between the two offsets, if
/// both lie in the text, in order and on character boundaries.
#[verifier::external_body]
pub(crate) fn slice<'a>(text: &'a str, from: usize, to: usize) -> (part: Option<&'a str>)
    ensures
        part.is_some() == (from <= to <= text.spec_bytes().len() && is_char_boundary(
            text.spec_bytes(),
            from as int,
        ) && is_char_boundary(text.spec_bytes(), to as int)),
        part matches Some(p) ==> p.spec_bytes() == text.spec_bytes().subrange(
            from as int,
            to as int,
        ),
{
    text.get(from..to)
}

fn push_event(log: &mut Vec<TreeEvent>, event: TreeEvent)
    ensures
        event_views(final(log)@) == event_views(old(log)@).push(event@),
{
    log.push(event);
    assert(event_views(log@) =~= event_views(old(log)@).push(event@));
}

/// The syntax tree of a file.
pub struct File {
    text: String,
    nodes: Vec<NodeData>,
    errors: Vec<SyntaxErrorData>,
}

impl View for File {
    type V = FileView;

    closed spec fn view(&self) -> FileView {
        file_view(self.text@, self.nodes@, self.errors@)
    }
}

impl File {
    #[verifier::type_invariant]
    spec fn inv(&self) -> bool {
        &&& self@.wf()
        &&& self@.shaped()
        &&& forall|i: int| 0 <= i < self.nodes@.len() ==> (#[trigger] self.nodes@[i]).range.wf()
    }

    /// Seals the arenas of a finished tree.
    pub(crate) fn seal(text: String, nodes: Vec<NodeData>, errors: Vec<SyntaxErrorData>) -> (file:
        File)
        requires
            file_view(text@, nodes@, errors@).wf(),
            file_view(text@, nodes@, errors@).shaped(),
            forall|i: int| 0 <= i < nodes@.len() ==> (#[trigger] nodes@[i]).range.wf(),
        ensures
            file@ == file_view(text@, nodes@, errors@),
    {
        File { text, nodes, errors }
    }

    /// Does nothing when run; to a verified caller it shows that a file is
    /// always a well-formed tree of the shape that the builder gives it.
    pub fn well_formed(&self)
        ensures
            self@.wf(),
            self@.shaped(),
    {
        proof {
            use_type_invariant(self);
        }
    }

    /// The whole text of the file.
    pub fn text(&self) -> (text: &str)
        ensures
            text.spec_bytes() == self@.text,
    {
        self.text.as_str()
    }

    /// The number of nodes.
    pub fn len(&self) -> (n: usize)
        ensures
            n == self@.nodes.len(),
    {
        self.nodes.len()
    }

    /// Reads the tree back as a log of builder calls: replaying the log over
    /// the text of the file builds the tree again. A node without children
    /// that is not empty is read back as a token, every other node as a node
    /// that is started, given its errors, and finished when its children are
    /// done.
    #[verifier::rlimit(60)]
    pub fn events(&self) -> (log: Vec<TreeEvent>)
        ensures
            event_views(log@) == self@.log(),
    {
        proof {
            use_type_invariant(self);
        }
        let ghost f = self@;
        let n = self.nodes.len();
        let mut log: Vec<TreeEvent> = Vec::new();
        let mut open: Vec<u32> = Vec::new();
        let mut e: usize = 0;
        let mut m: usize = 0;
        proof {
            assert(event_views(log@) =~= f.log_upto(0));
            assert(f.open_before(0) =~= Seq::<int>::empty());
            assert(f.has(0));
            lemma_errors_below(f, 0);
        }
        while m < n
            invariant
                f == self@,
                f.wf(),
                f.shaped(),
                n == f.nodes.len(),
                n == self.nodes@.len(),
                forall|i: int| 0 <= i < n ==> (#[trigger] self.nodes@[i]).range.wf(),
                m <= n,
                event_views(log@) == f.log_upto(m as int),
                open@.len() == f.open_before(m as int).len(),
                forall|j: int|
                    0 <= j < open@.len() ==> (#[trigger] open@[j]) as int == f.open_before(
                        m as int,
                    )[j],
                e == f.errors_below(m as int),
            decreases n - m,
        {
            let data = self.nodes[m];
            let start = data.range.start().0;
            let end = data.range.end().0;
            let ghost base = event_views(log@);
            let ghost mi = m as int;
            proof {
                assert(data@ == f.nodes[mi]);
                assert(f.has(mi));
                lemma_errors_below(f, mi);
                lemma_errors_below(f, mi + 1);
                lemma_open_after(f, mi);
                lemma_open_prefix(f, mi);
            }
            if data.first_child.is_none() && start < end {
                proof {
                    assert(f.is_token(mi));
                    // a token has no errors
                    if f.errors_below(mi) < f.errors_below(mi + 1) {
                        let i = f.errors_below(mi);
                        assert(f.errors[i].node == mi);
                        assert(f.nodes[f.errors[i].node].first_child is None);
                    }
                }
                push_event(&mut log, TreeEvent::Token { kind: data.kind, len: TextUnit(end - start) });
                proof {
                    assert(event_views(log@) =~= base + f.opens(mi));
                }
            } else {
                proof {
                    assert(!f.is_token(mi));
                }
                push_event(&mut log, TreeEvent::Start { kind: data.kind });
                let ghost from = e as int;
                proof {
                    assert(error_calls(f.errors.subrange(from, from)) =~= Seq::<TreeEventView>::empty());
                    assert(event_views(log@) =~= base + (seq![
                        TreeEventView::Start { kind: data.kind },
                    ] + error_calls(f.errors.subrange(from, e as int))));
                }
                while e < self.errors.len() && self.errors[e].node.0 as usize == m
                    invariant
                        f == self@,
                        f.wf(),
                        mi == m,
                        0 <= mi < f.nodes.len(),
                        from == f.errors_below(mi),
                        0 <= from <= e <= f.errors_below(mi + 1),
                        f.errors_below(mi + 1) <= f.errors.len(),
                        f.errors.len() == self.errors@.len(),
                        event_views(log@) == base + (seq![TreeEventView::Start { kind: data.kind }]
                            + error_calls(f.errors.subrange(from, e as int))),
                    decreases self.errors@.len() - e,
                {
                    let ghost before = event_views(log@);
                    proof {
                        lemma_upper_bound(f.errors, mi);
                        assert(f.errors[e as int].node == mi);
                        assert(e < f.errors_below(mi + 1)) by {
                            if e >= f.errors_below(mi + 1) {
                                assert(f.errors[e as int].node > mi);
                            }
                        }
                    }
                    push_event(&mut log, TreeEvent::Error { message: self.errors[e].message.clone() });
                    proof {
                        assert(from <= e + 1 <= f.errors.len());
                        let upto = error_calls(f.errors.subrange(from, e as int));
                        let more = error_calls(f.errors.subrange(from, e + 1));
                        assert(more.len() == upto.len() + 1);
                        assert forall|k: int| 0 <= k < more.len() implies #[trigger] more[k]
                            == upto.push(
                            TreeEventView::Error { message: f.errors[e as int].message },
                        )[k] by {
                            assert(f.errors.subrange(from, e + 1)[k] == f.errors[from + k]);
                            if k < upto.len() {
                                assert(f.errors.subrange(from, e as int)[k] == f.errors[from + k]);
                            }
                        }
                        assert(more =~= upto.push(
                            TreeEventView::Error { message: f.errors[e as int].message },
                        ));
                        assert(event_views(log@) =~= base + (seq![
                            TreeEventView::Start { kind: data.kind },
                        ] + more));
                    }
                    e = e + 1;
                }
                proof {
                    lemma_upper_bound(f.errors, mi);
                    assert(e == f.errors_below(mi + 1)) by {
                        if e < f.errors_below(mi + 1) {
                            assert(f.errors[e as int].node <= mi);
                            assert(f.errors[e as int].node == mi);
                        }
                    }
                }
                open.push(m as u32);
            }
            let ghost s = f.open_after(mi);
            let ghost opened = event_views(log@);
            proof {
                assert(opened == base + f.opens(mi));
                assert(open@.len() == s.len());
                assert forall|j: int| 0 <= j < open@.len() implies (#[trigger] open@[j]) as int
                    == s[j] by {
                    if j < f.open_before(mi).len() {
                        assert(open@[j] as int == f.open_before(mi)[j]);
                    }
                }
                assert(finishes(0) =~= Seq::<TreeEventView>::empty());
                assert(opened + finishes(0) =~= opened);
            }
            let ghost keep = f.open_before(mi + 1).len() as int;
            if m + 1 < n {
                let next = &self.nodes[m + 1];
                proof {
                    assert(next@ == f.nodes[mi + 1]);
                    assert(f.has(mi + 1));
                    let q = f.nodes[mi + 1].parent->0;
                    assert(f.has(q));
                    lemma_path_above(f, q, q);
                    assert(s.take(keep)[keep - 1] == q);
                }
                let q = next.parent.unwrap().0;
                while open[open.len() - 1] != q
                    invariant
                        1 <= keep <= open@.len() <= s.len(),
                        s == f.open_after(mi),
                        s[keep - 1] == q as int,
                        forall|j: int, k: int|
                            0 <= j < k < s.len() ==> #[trigger] s[j] < #[trigger] s[k],
                        forall|j: int| 0 <= j < open@.len() ==> (#[trigger] open@[j]) as int == s[j],
                        event_views(log@) == opened + finishes(s.len() - open@.len()),
                    decreases open@.len(),
                {
                    proof {
                        if open@.len() == keep {
                            assert(open@[keep - 1] as int == s[keep - 1]);
                        }
                        assert(finishes(s.len() - open@.len() + 1) =~= finishes(
                            s.len() - open@.len(),
                        ).push(TreeEventView::Finish));
                    }
                    open.pop();
                    push_event(&mut log, TreeEvent::Finish);
                }
                proof {
                    let top = open@.len() - 1;
                    assert(open@[top] as int == s[top]);
                    if top > keep - 1 {
                        assert(s[keep - 1] < s[top]);
                    }
                    assert(open@.len() == keep);
                }
            } else {
                proof {
                    assert(f.open_before(mi + 1) =~= Seq::<int>::empty());
                }
                while open.len() > 0
                    invariant
                        open@.len() <= s.len(),
                        event_views(log@) == opened + finishes(s.len() - open@.len()),
                    decreases open@.len(),
                {
                    proof {
                        assert(finishes(s.len() - open@.len() + 1) =~= finishes(
                            s.len() - open@.len(),
                        ).push(TreeEventView::Finish));
                    }
                    open.pop();
                    push_event(&mut log, TreeEvent::Finish);
                }
            }
            proof {
                assert(open@.len() == keep);
                assert(event_views(log@) == base + f.opens(mi) + finishes(s.len() - keep));
                assert forall|j: int| 0 <= j < open@.len() implies (#[trigger] open@[j]) as int
                    == f.open_before(mi + 1)[j] by {
                    assert(s.take(keep)[j] == s[j]);
                }
            }
            m = m + 1;
        }
        log
    }

    /// The root of the tree.
    pub fn root<'f>(&'f self) -> (node: Node<'f>)
        ensures
            node.file() == self,
            node.index() == 0,
    {
        proof {
            use_type_invariant(self);
        }
        Node { file: self, idx: NodeIdx(0) }
    }
}

/// A node of a syntax tree.
#[derive(Clone, Copy)]
pub struct Node<'f> {
    file: &'f File,
    idx: NodeIdx,
}

impl<'f> Node<'f> {
    #[verifier::type_invariant]
    spec fn inv(&self) -> bool {
        self.idx.0 < self.file.nodes@.len()
    }

    /// The file that the node belongs to.
    pub closed spec fn file(&self) -> &File {
        self.file
    }

    /// The index of the node in its file.
    pub closed spec fn index(&self) -> int {
        self.idx.0 as int
    }

    /// What the file holds of the node.
    pub open spec fn view(&self) -> NodeView {
        self.file()@.nodes[self.index()]
    }

    /// Does nothing when run; to a verified caller it shows that a node is
    /// always a node of its file, and the file a well-formed tree.
    pub fn in_file(&self)
        ensures
            self.file()@.has(self.index()),
            self.file()@.wf(),
    {
        proof {
            use_type_invariant(self);
            use_type_invariant(self.file);
        }
    }

    pub fn kind(&self) -> (kind: SyntaxKind)
        ensures
            kind == self.view().kind,
    {
        self.data().kind
    }

    pub fn range(&self) -> (range: TextRange)
        ensures
            range.wf(),
            range.start_spec() == self.view().start,
            range.end_spec() == self.view().end,
    {
        proof {
            use_type_invariant(self);
            use_type_invariant(self.file);
        }
        self.data().range
    }

    /// The part of the text of the file that the node covers.
    pub fn text(&self) -> (text: &'f str)
        ensures
            text.spec_bytes() == self.file()@.text.subrange(self.view().start, self.view().end),
    {
        proof {
            use_type_invariant(self);
            use_type_invariant(self.file);
            assert(self.file@.has(self.idx.0 as int));
        }
        let range = self.range();
        let part = slice(self.file.text.as_str(), range.start().0 as usize, range.end().0 as usize);
        part.unwrap()
    }

    pub fn parent(&self) -> (parent: Option<Node<'f>>)
        ensures
            match parent {
                Some(p) => p.file() == self.file() && self.view().parent == Some(p.index()),
                None => self.view().parent is None,
            },
    {
        proof {
            use_type_invariant(self);
            use_type_invariant(self.file);
            assert(self.file@.has(self.idx.0 as int));
        }
        self.as_node(self.data().parent)
    }

    /// The children of the node, from the first to the last.
    pub fn children(&self) -> (children: Children<'f>)
        ensures
            children.file() == self.file(),
            children@ == self.file()@.children(self.index()),
    {
        proof {
            use_type_invariant(self);
            use_type_invariant(self.file);
            assert(self.file@.has(self.idx.0 as int));
        }
        Children { next: self.as_node(self.data().first_child), file: self.file }
    }

    /// The errors of the node, in the order in which they were attached.
    #[allow(non_snake_case)]
    pub fn SyntaxErrors(&self) -> (errors: SyntaxErrors<'f>)
        ensures
            errors.file() == self.file(),
            errors@ == self.file()@.errors_of(self.index()),
    {
        proof {
            use_type_invariant(self);
            use_type_invariant(self.file);
        }
        let mut pos: usize = 0;
        let n = self.file.errors.len();
        while pos < n && self.file.errors[pos].node.0 != self.idx.0
            invariant
                pos <= n,
                n == self.file.errors@.len(),
                n <= u32::MAX,
                self.file@.first_error(self.idx.0 as int, 0) == self.file@.first_error(
                    self.idx.0 as int,
                    pos as int,
                ),
            decreases n - pos,
        {
            pos = pos + 1;
        }
        let next = if pos < n {
            Some(SyntaxError { file: self.file, idx: ErrorIdx(pos as u32) })
        } else {
            None
        };
        SyntaxErrors { next, file: self.file }
    }

    fn data(&self) -> (data: &'f NodeData)
        ensures
            data@ == self.view(),
            self.index() < self.file().nodes@.len(),
            *data == self.file().nodes@[self.index()],
    {
        proof {
            use_type_invariant(self);
        }
        &self.file.nodes[self.idx.0 as usize]
    }

    fn as_node(&self, idx: Option<NodeIdx>) -> (node: Option<Node<'f>>)
        requires
            idx matches Some(i) ==> i.0 < self.file().nodes@.len(),
        ensures
            match node {
                Some(n) => n.file() == self.file() && idx == Some(n.idx),
                None => idx is None,
            },
    {
        match idx {
            Some(idx) => Some(Node { file: self.file, idx }),
            None => None,
        }
    }
}

/// An error of a syntax tree.
#[derive(Clone, Copy)]
pub struct SyntaxError<'f> {
    file: &'f File,
    idx: ErrorIdx,
}

impl<'f> SyntaxError<'f> {
    #[verifier::type_invariant]
    spec fn inv(&self) -> bool {
        self.idx.0 < self.file.errors@.len()
    }

    /// The file that the error belongs to.
    pub closed spec fn file(&self) -> &File {
        self.file
    }

    /// The index of the error in its file.
    pub closed spec fn index(&self) -> int {
        self.idx.0 as int
    }

    /// What the file holds of the error.
    pub open spec fn view(&self) -> ErrorView {
        self.file()@.errors[self.index()]
    }

    pub fn message(&self) -> (message: &'f str)
        ensures
            message@ == self.view().message,
    {
        self.data().message.as_str()
    }

    fn data(&self) -> (data: &'f SyntaxErrorData)
        ensures
            data@ == self.view(),
            *data == self.file().errors@[self.index()],
    {
        proof {
            use_type_invariant(self);
        }
        &self.file.errors[self.idx.0 as usize]
    }

    /// The next error of the same node, if there is one.
    fn next(&self) -> (next: Option<SyntaxError<'f>>)
        ensures
            match next {
                Some(e) => e.file() == self.file() && e.index() == self.index() + 1
                    && self.file()@.run_from(Some(self.index())) == seq![self.index()]
                    + self.file()@.run_from(Some(e.index())),
                None => self.file()@.run_from(Some(self.index())) == seq![self.index()],
            },
    {
        proof {
            use_type_invariant(self);
            use_type_invariant(self.file);
        }
        let at = self.idx.0 as usize;
        if at + 1 >= self.file.errors.len() {
            return None;
        }
        if self.file.errors[at + 1].node.0 != self.file.errors[at].node.0 {
            return None;
        }
        Some(SyntaxError { file: self.file, idx: ErrorIdx(self.idx.0 + 1) })
    }
}

/// The walk over the children of a node.
pub struct Children<'f> {
    next: Option<Node<'f>>,
    file: &'f File,
}

impl<'f> Children<'f> {
    #[verifier::type_invariant]
    spec fn inv(&self) -> bool {
        self.next matches Some(n) ==> n.file == self.file
    }

    /// The file that is walked.
    pub closed spec fn file(&self) -> &File {
        self.file
    }

    /// The children that are still to come, by index.
    pub closed spec fn view(&self) -> Seq<int> {
        self.file@.siblings_from(
            match self.next {
                Some(n) => Some(n.idx.0 as int),
                None => None,
            },
        )
    }

    /// The next child, if one is left.
    pub fn next(&mut self) -> (node: Option<Node<'f>>)
        ensures
            final(self).file() == old(self).file(),
            match node {
                Some(n) => {
                    &&& old(self)@.len() > 0
                    &&& n.file() == old(self).file()
                    &&& n.index() == old(self)@[0]
                    &&& final(self)@ == old(self)@.skip(1)
                },
                None => old(self)@.len() == 0 && final(self)@.len() == 0,
            },
    {
        proof {
            use_type_invariant(&*self);
            use_type_invariant(self.file);
        }
        let next = self.next;
        match next {
            Some(node) => {
                proof {
                    use_type_invariant(node);
                    assert(self.file@.has(node.idx.0 as int));
                }
                let following = node.as_node(node.data().next_sibling);
                self.next = following;
                proof {
                    let f = self.file@;
                    let c = node.idx.0 as int;
                    match f.nodes[c].next_sibling {
                        Some(d) => {
                            assert(f.siblings_from(Some(c)) =~= seq![c] + f.siblings_from(Some(d)));
                            assert((seq![c] + f.siblings_from(Some(d))).skip(1) =~= f.siblings_from(
                                Some(d),
                            ));
                        },
                        None => {
                            assert(f.siblings_from(Some(c)) =~= seq![c]);
                            assert(seq![c].skip(1) =~= Seq::<int>::empty());
                            assert(f.siblings_from(None) =~= Seq::<int>::empty());
                        },
                    }
                }
            },
            None => {},
        }
        next
    }
}

/// The walk over the errors of a node.
pub struct SyntaxErrors<'f> {
    next: Option<SyntaxError<'f>>,
    file: &'f File,
}

impl<'f> SyntaxErrors<'f> {
    #[verifier::type_invariant]
    spec fn inv(&self) -> bool {
        self.next matches Some(e) ==> e.file == self.file
    }

    /// The file that is walked.
    pub closed spec fn file(&self) -> &File {
        self.file
    }

    /// The errors that are still to come, by index.
    pub closed spec fn view(&self) -> Seq<int> {
        self.file@.run_from(
            match self.next {
                Some(e) => Some(e.idx.0 as int),
                None => None,
            },
        )
    }

    /// The next error, if one is left.
    pub fn next(&mut self) -> (error: Option<SyntaxError<'f>>)
        ensures
            final(self).file() == old(self).file(),
            match error {
                Some(e) => {
                    &&& old(self)@.len() > 0
                    &&& e.file() == old(self).file()
                    &&& e.index() == old(self)@[0]
                    &&& final(self)@ == old(self)@.skip(1)
                },
                None => old(self)@.len() == 0 && final(self)@.len() == 0,
            },
    {
        proof {
            use_type_invariant(&*self);
        }
        let next = self.next;
        match next {
            Some(e) => {
                proof {
                    use_type_invariant(e);
                }
                let following = e.next();
                self.next = following;
                proof {
                    let f = self.file@;
                    let i = e.idx.0 as int;
                    match following {
                        Some(g) => {
                            assert((seq![i] + f.run_from(Some(i + 1))).skip(1) =~= f.run_from(
                                Some(i + 1),
                            ));
                        },
                        None => {
                            assert(seq![i].skip(1) =~= Seq::<int>::empty());
                            assert(f.run_from(None) =~= Seq::<int>::empty());
                        },
                    }
                }
            },
            None => {},
        }
        next
    }
}

} // verus!
