//! The builder of syntax trees. A tree is built in one pass over the tokens of
//! a text by balanced calls: start a node, add tokens and errors and inner
//! nodes, finish the node.

use crate::builder_model::{
    fresh_node, lemma_apply_ok, lemma_complete_wf, lemma_start_ok, lemma_upper_bound, linked,
    upper_bound, BuilderView, TreeEventView,
};
use crate::text::{TextRange, TextUnit};
use crate::tree_shape::{lemma_apply_shaped, lemma_complete_shaped, lemma_replay_shaped};
use crate::tree::{file_view, link_view, File, NodeData, NodeIdx, SyntaxErrorData};
use crate::tree_model::{ErrorView, FileView, NodeView, SyntaxKind};
use vstd::prelude::*;
use vstd::string::*;
use vstd::utf8::{encode_utf8, is_char_boundary};

verus! {

/// One call of the builder, as a value: a log of such calls can be replayed.
pub enum TreeEvent {
    /// Start a node of the given kind under the node being built.
    Start { kind: SyntaxKind },
    /// Finish the node being built.
    Finish,
    /// Add a leaf of the given kind that takes `len` bytes of the text.
    Token { kind: SyntaxKind, len: TextUnit },
    /// Attach an error to the node being built.
    Error { message: String },
}

impl View for TreeEvent {
    type V = TreeEventView;

    open spec fn view(&self) -> TreeEventView {
        match *self {
            TreeEvent::Start { kind } => TreeEventView::Start { kind },
            TreeEvent::Finish => TreeEventView::Finish,
            TreeEvent::Token { kind, len } => TreeEventView::Token { kind, len: len.0 as int },
            TreeEvent::Error { message } => TreeEventView::Error { message: message@ },
        }
    }
}

/// The calls of a log, each as its view.
pub open spec fn event_views(events: Seq<TreeEvent>) -> Seq<TreeEventView> {
    events.map_values(|e: TreeEvent| e@)
}

/// The builder of a syntax tree.
pub struct FileBuilder {
    text: String,
    nodes: Vec<NodeData>,
    errors: Vec<SyntaxErrorData>,
    in_progress: Vec<(NodeIdx, Option<NodeIdx>)>,
    pos: u32,
}

impl View for FileBuilder {
    type V = BuilderView;

    closed spec fn view(&self) -> BuilderView {
        BuilderView {
            file: file_view(self.text@, self.nodes@, self.errors@),
            stack: self.in_progress@.map_values(
                |e: (NodeIdx, Option<NodeIdx>)| (e.0.0 as int, link_view(e.1)),
            ),
            pos: self.pos as int,
        }
    }
}

impl FileBuilder {
    /// What holds of a builder between two calls.
    pub closed spec fn wf(&self) -> bool {
        &&& self@.inv()
        &&& self@.shaped()
        &&& forall|i: int| 0 <= i < self.nodes@.len() ==> (#[trigger] self.nodes@[i]).range.wf()
    }

    /// The text that the tree is built over.
    pub closed spec fn text_spec(&self) -> Seq<char> {
        self.text@
    }

    /// A builder for a tree over `text`.
    pub fn new(text: String) -> (b: FileBuilder)
        requires
            encode_utf8(text@).len() <= u32::MAX,
        ensures
            b.wf(),
            b@ == BuilderView::start(encode_utf8(text@)),
            b.text_spec() == text@,
    {
        let b = FileBuilder {
            text,
            nodes: Vec::new(),
            errors: Vec::new(),
            in_progress: Vec::new(),
            pos: 0,
        };
        proof {
            vstd::utf8::encode_utf8_valid_utf8(text@);
            lemma_start_ok(encode_utf8(text@));
            assert(b@.file.nodes =~= Seq::<NodeView>::empty());
            assert(b@.file.errors =~= Seq::<ErrorView>::empty());
            assert(b@.stack =~= Seq::<(int, Option<int>)>::empty());
        }
        b
    }

    /// Tells whether a call is in order now.
    pub fn admits(&self, event: &TreeEvent) -> (res: bool)
        requires
            self.wf(),
        ensures
            res == self@.admits(event@),
    {
        match event {
            TreeEvent::Start { .. } => (self.in_progress.len() > 0 || self.nodes.len() == 0)
                && self.nodes.len() < u32::MAX as usize,
            TreeEvent::Finish => self.in_progress.len() > 0,
            TreeEvent::Token { kind, len } => {
                if self.in_progress.len() == 0 || self.nodes.len() >= u32::MAX as usize {
                    return false;
                }
                let end = self.pos as u64 + len.0 as u64;
                if end > self.text.as_str().len() as u64 {
                    return false;
                }
                self.text.as_str().is_char_boundary(end as usize)
            },
            TreeEvent::Error { .. } => self.in_progress.len() > 0 && self.errors.len()
                < u32::MAX as usize,
        }
    }

    /// Tells whether the tree is complete: every node is finished, there is a
    /// root, and the tokens cover the text.
    pub fn is_complete(&self) -> (res: bool)
        requires
            self.wf(),
        ensures
            res == self@.complete(),
    {
        self.in_progress.len() == 0 && self.nodes.len() > 0 && self.pos as usize
            == self.text.as_str().len()
    }

    /// Starts a node of kind `kind`: the root, or a child of the node being
    /// built.
    pub fn start_internal(&mut self, kind: SyntaxKind)
        requires
            old(self).wf(),
            old(self)@.admits(TreeEventView::Start { kind }),
        ensures
            final(self).wf(),
            final(self)@ == old(self)@.apply(TreeEventView::Start { kind }),
            final(self).text_spec() == old(self).text_spec(),
    {
        proof {
            lemma_apply_ok(self@, TreeEventView::Start { kind });
            lemma_apply_shaped(self@, TreeEventView::Start { kind });
        }
        let node = NodeData {
            kind,
            range: TextRange::from_len(TextUnit(self.pos), TextUnit(0)),
            parent: None,
            first_child: None,
            next_sibling: None,
        };
        let id = if self.in_progress.len() == 0 {
            self.nodes.push(node);
            NodeIdx(0)
        } else {
            proof {
                let top = self@.stack.len() - 1;
                assert(self@.at(top));
            }
            self.push_child(node)
        };
        self.in_progress.push((id, None));
        proof {
            let b = old(self)@;
            let a = b.apply(TreeEventView::Start { kind });
            assert(self@.file.nodes =~= a.file.nodes);
            assert(self@.stack =~= a.stack);
            assert(self@.file.errors =~= a.file.errors);
        }
    }

    /// Finishes the node being built.
    pub fn finish_internal(&mut self)
        requires
            old(self).wf(),
            old(self)@.admits(TreeEventView::Finish),
        ensures
            final(self).wf(),
            final(self)@ == old(self)@.apply(TreeEventView::Finish),
            final(self).text_spec() == old(self).text_spec(),
    {
        proof {
            lemma_apply_ok(self@, TreeEventView::Finish);
            lemma_apply_shaped(self@, TreeEventView::Finish);
            let top = self@.stack.len() - 1;
            assert(self@.at(top));
            assert(self@.file.has(self@.stack[top].0));
        }
        let (id, _) = self.in_progress.pop().unwrap();
        let data = self.nodes[id.0 as usize];
        let start = data.range.start();
        self.nodes.set(
            id.0 as usize,
            NodeData {
                kind: data.kind,
                range: TextRange::from_to(start, TextUnit(self.pos)),
                parent: data.parent,
                first_child: data.first_child,
                next_sibling: data.next_sibling,
            },
        );
        proof {
            let b = old(self)@;
            let a = b.apply(TreeEventView::Finish);
            assert(self@.file.nodes =~= a.file.nodes);
            assert(self@.stack =~= a.stack);
            assert(self@.file.errors =~= a.file.errors);
        }
    }

    /// Adds a leaf of kind `kind` that takes the next `len` bytes of the text.
    pub fn leaf(&mut self, kind: SyntaxKind, len: TextUnit)
        requires
            old(self).wf(),
            old(self)@.admits(TreeEventView::Token { kind, len: len.0 as int }),
        ensures
            final(self).wf(),
            final(self)@ == old(self)@.apply(TreeEventView::Token { kind, len: len.0 as int }),
            final(self).text_spec() == old(self).text_spec(),
    {
        proof {
            lemma_apply_ok(self@, TreeEventView::Token { kind, len: len.0 as int });
            lemma_apply_shaped(self@, TreeEventView::Token { kind, len: len.0 as int });
        }
        let leaf = NodeData {
            kind,
            range: TextRange::from_len(TextUnit(self.pos), len),
            parent: None,
            first_child: None,
            next_sibling: None,
        };
        self.pos = self.pos + len.0;
        proof {
            let top = old(self)@.stack.len() - 1;
            assert(old(self)@.at(top));
        }
        self.push_child(leaf);
        proof {
            let b = old(self)@;
            let a = b.apply(TreeEventView::Token { kind, len: len.0 as int });
            assert(self@.file.nodes =~= a.file.nodes);
            assert(self@.stack =~= a.stack);
            assert(self@.file.errors =~= a.file.errors);
        }
    }

    /// Attaches an error to the node being built. The errors of a node stay
    /// together, in the order in which they were attached.
    #[verifier::rlimit(60)]
    pub fn error(&mut self, message: String)
        requires
            old(self).wf(),
            old(self)@.admits(TreeEventView::Error { message: message@ }),
        ensures
            final(self).wf(),
            final(self)@ == old(self)@.apply(TreeEventView::Error { message: message@ }),
            final(self).text_spec() == old(self).text_spec(),
    {
        proof {
            lemma_apply_ok(self@, TreeEventView::Error { message: message@ });
            lemma_apply_shaped(self@, TreeEventView::Error { message: message@ });
            let top = self@.stack.len() - 1;
            assert(self@.at(top));
        }
        let node = self.in_progress[self.in_progress.len() - 1].0;
        let ghost errors = self@.file.errors;
        let mut at: usize = self.errors.len();
        proof {
            assert(errors.take(at as int) =~= errors);
        }
        while at > 0 && self.errors[at - 1].node.0 > node.0
            invariant
                at <= self.errors.len(),
                errors == self.errors@.map_values(|e: SyntaxErrorData| e@),
                upper_bound(errors, node.0 as int) == upper_bound(
                    errors.take(at as int),
                    node.0 as int,
                ),
            decreases at,
        {
            proof {
                assert(errors.take(at as int).drop_last() =~= errors.take(at - 1));
            }
            at = at - 1;
        }
        proof {
            assert(errors.take(self.errors.len() as int) =~= errors);
            if at > 0 {
                assert(errors.take(at as int).last() == errors[at - 1]);
            }
            assert(at == upper_bound(errors, node.0 as int));
        }
        self.errors.insert(at, SyntaxErrorData { node, message });
        proof {
            let b = old(self)@;
            let a = b.apply(TreeEventView::Error { message: message@ });
            assert(self@.file.errors =~= a.file.errors);
            assert(self@.file.nodes =~= a.file.nodes);
            assert(self@.stack =~= a.stack);
        }
    }

    /// Yields the file when the tree is complete.
    pub fn finish(self) -> (file: File)
        requires
            self.wf(),
            self@.complete(),
        ensures
            file@ == self@.file,
    {
        proof {
            lemma_complete_wf(self@);
            lemma_complete_shaped(self@);
        }
        File::seal(self.text, self.nodes, self.errors)
    }

    /// Puts a new node under the node being built, and makes it known to the
    /// node before it.
    #[verifier::rlimit(60)]
    fn push_child(&mut self, child: NodeData) -> (id: NodeIdx)
        requires
            old(self).in_progress@.len() > 0,
            old(self).nodes@.len() < u32::MAX,
            ({
                let (t, last) = old(self).in_progress@.last();
                &&& t.0 < old(self).nodes@.len()
                &&& last matches Some(l) ==> l.0 < old(self).nodes@.len()
            }),
        ensures
            id.0 == old(self).nodes@.len(),
            final(self).text == old(self).text,
            final(self).errors == old(self).errors,
            final(self).pos == old(self).pos,
            final(self).in_progress@ == old(self).in_progress@.drop_last().push(
                (old(self).in_progress@.last().0, Some(id)),
            ),
            final(self).nodes@.map_values(|n: NodeData| n@) == linked(
                old(self).nodes@.map_values(|n: NodeData| n@),
                old(self).in_progress@.last().0.0 as int,
                link_view(old(self).in_progress@.last().1),
                id.0 as int,
            ).push(
                NodeView {
                    parent: Some(old(self).in_progress@.last().0.0 as int),
                    ..child@
                },
            ),
            forall|i: int|
                0 <= i < final(self).nodes@.len() ==> (#[trigger] final(self).nodes@[i]).range.wf()
                    == if i < old(self).nodes@.len() {
                    old(self).nodes@[i].range.wf()
                } else {
                    child.range.wf()
                },
    {
        let top = self.in_progress.len() - 1;
        let (parent, sibling) = self.in_progress[top];
        let id = NodeIdx(self.nodes.len() as u32);
        let child = NodeData {
            kind: child.kind,
            range: child.range,
            parent: Some(parent),
            first_child: child.first_child,
            next_sibling: child.next_sibling,
        };
        match sibling {
            Some(idx) => {
                let data = self.nodes[idx.0 as usize];
                self.nodes.set(
                    idx.0 as usize,
                    NodeData {
                        kind: data.kind,
                        range: data.range,
                        parent: data.parent,
                        first_child: data.first_child,
                        next_sibling: Some(id),
                    },
                );
            },
            None => {
                let data = self.nodes[parent.0 as usize];
                self.nodes.set(
                    parent.0 as usize,
                    NodeData {
                        kind: data.kind,
                        range: data.range,
                        parent: data.parent,
                        first_child: Some(id),
                        next_sibling: data.next_sibling,
                    },
                );
            },
        }
        self.nodes.push(child);
        self.in_progress.set(top, (parent, Some(id)));
        proof {
            assert(self.in_progress@ =~= old(self).in_progress@.drop_last().push(
                (old(self).in_progress@.last().0, Some(id)),
            ));
            assert(self.nodes@.map_values(|n: NodeData| n@) =~= linked(
                old(self).nodes@.map_values(|n: NodeData| n@),
                old(self).in_progress@.last().0.0 as int,
                link_view(old(self).in_progress@.last().1),
                id.0 as int,
            ).push(child@));
        }
        id
    }
}

/// Replays a log of calls over a text. Returns the file that the calls build,
/// and `None` where the text is too long, a call is out of order when its turn
/// comes, or the tree is not complete at the end of the log.
#[verifier::rlimit(60)]
pub fn build(text: String, events: Vec<TreeEvent>) -> (res: Option<File>)
    ensures
        match res {
            Some(file) => {
                &&& buildable(text@, event_views(events@))
                &&& file@ == built(text@, event_views(events@))
            },
            None => !buildable(text@, event_views(events@)),
        },
{
    broadcast use vstd::slice::group_slice_axioms;

    if text.as_str().as_bytes().len() > u32::MAX as usize {
        return None;
    }
    let ghost start = BuilderView::start(encode_utf8(text@));
    let ghost views = event_views(events@);
    let ghost log = events@;
    let mut builder = FileBuilder::new(text);
    let mut queue = events;
    let mut i: usize = 0;
    let n = queue.len();
    assert(views.take(0) =~= Seq::<TreeEventView>::empty());
    while i < n
        invariant
            i <= n,
            n == log.len(),
            log == events@,
            views == event_views(log),
            start == BuilderView::start(encode_utf8(text@)),
            encode_utf8(text@).len() <= u32::MAX,
            queue@.len() == n - i,
            forall|k: int| 0 <= k < queue@.len() ==> (#[trigger] queue@[k]) == log[i + k],
            builder.wf(),
            start.admits_all(views.take(i as int)),
            builder@ == start.replay(views.take(i as int)),
        decreases n - i,
    {
        let ghost rest = queue@;
        let event = queue.remove(0);
        proof {
            assert(event == rest[0]);
            assert(event@ == views[i as int]);
            assert(views.take(i + 1).drop_last() =~= views.take(i as int));
            assert(views.take(i + 1).last() == views[i as int]);
            assert forall|k: int| 0 <= k < queue@.len() implies (#[trigger] queue@[k]) == log[i
                + 1 + k] by {
                assert(queue@[k] == rest[k + 1]);
            }
        }
        if !builder.admits(&event) {
            proof {
                lemma_not_admitted(start, views, i as int);
            }
            return None;
        }
        match event {
            TreeEvent::Start { kind } => builder.start_internal(kind),
            TreeEvent::Finish => builder.finish_internal(),
            TreeEvent::Token { kind, len } => builder.leaf(kind, len),
            TreeEvent::Error { message } => builder.error(message),
        }
        i = i + 1;
    }
    proof {
        assert(views.take(n as int) =~= views);
    }
    if !builder.is_complete() {
        return None;
    }
    Some(builder.finish())
}

/// Whether a log of calls builds a file over a text: the text is not too long,
/// every call is in order when its turn comes, and the tree is complete at the
/// end.
pub open spec fn buildable(text: Seq<char>, events: Seq<TreeEventView>) -> bool {
    let start = BuilderView::start(encode_utf8(text));
    &&& encode_utf8(text).len() <= u32::MAX
    &&& start.admits_all(events)
    &&& start.replay(events).complete()
}

/// The file that a log of calls builds over a text.
pub open spec fn built(text: Seq<char>, events: Seq<TreeEventView>) -> FileView {
    BuilderView::start(encode_utf8(text)).replay(events).file
}

/// Replaying a log reproduces the tree: two files built from one text by one
/// log have the same nodes, with the same kinds, ranges, parents and children,
/// and the same errors.
pub proof fn lemma_replay_reproduces(
    text: Seq<char>,
    events: Seq<TreeEventView>,
    a: FileView,
    b: FileView,
    n: int,
)
    requires
        buildable(text, events),
        a == built(text, events),
        b == built(text, events),
        a.has(n),
    ensures
        a.wf(),
        b.has(n),
        a.nodes[n].kind == b.nodes[n].kind,
        a.nodes[n].start == b.nodes[n].start,
        a.nodes[n].end == b.nodes[n].end,
        a.nodes[n].parent == b.nodes[n].parent,
        a.children(n) == b.children(n),
        a.errors_of(n) == b.errors_of(n),
        a.errors == b.errors,
{
    lemma_built_wf(text, events);
}

/// Reading a file back and replaying the log over its text builds the file
/// again: the log is in order, the tree it builds is complete, and the file
/// built has the nodes and errors of the file read, with the same kinds,
/// ranges, parents, children and messages.
pub proof fn lemma_read_then_build(text: Seq<char>, f: FileView)
    requires
        f.wf(),
        f.shaped(),
        f.text == encode_utf8(text),
    ensures
        buildable(text, f.log()),
        built(text, f.log()) == f,
{
    crate::tree_log::lemma_round_trip(f);
}

/// A log with a call that is out of order is out of order as a whole.
proof fn lemma_not_admitted(start: BuilderView, events: Seq<TreeEventView>, i: int)
    requires
        0 <= i < events.len(),
        !start.replay(events.take(i)).admits(events[i]),
    ensures
        !start.admits_all(events),
    decreases events.len(),
{
    if i == events.len() - 1 {
        assert(events.drop_last() =~= events.take(i));
    } else {
        assert(events.drop_last().take(i) =~= events.take(i));
        lemma_not_admitted(start, events.drop_last(), i);
    }
}

/// What a log of calls builds over a text is a well-formed tree: one root,
/// ranges that nest, siblings in order, the errors of each node in one run;
/// and it has the shape that the builder gives: the nodes are numbered in the
/// order in which they were started, and the children of a node cover its
/// range.
pub proof fn lemma_built_wf(text: Seq<char>, events: Seq<TreeEventView>)
    requires
        buildable(text, events),
    ensures
        built(text, events).wf(),
        built(text, events).shaped(),
{
    let start = BuilderView::start(encode_utf8(text));
    vstd::utf8::encode_utf8_valid_utf8(text);
    lemma_start_ok(encode_utf8(text));
    lemma_replay_shaped(start, events);
    lemma_complete_wf(start.replay(events));
    lemma_complete_shaped(start.replay(events));
}

} // verus!
