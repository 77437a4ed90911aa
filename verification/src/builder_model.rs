//! Building a syntax tree, as a mathematical value: the state of the builder
//! between two calls, what each call does to it, and why the result is a tree.

use crate::tree_model::{errors_sorted, ErrorView, FileView, NodeView, SyntaxKind};
use vstd::prelude::*;
use vstd::utf8::is_char_boundary;

verus! {

/// One call of the builder.
pub enum TreeEventView {
    /// Start a node of the given kind under the node being built.
    Start { kind: SyntaxKind },
    /// Finish the node being built.
    Finish,
    /// Add a leaf of the given kind that takes `len` bytes of the text.
    Token { kind: SyntaxKind, len: int },
    /// Attach an error to the node being built.
    Error { message: Seq<char> },
}

/// The state of the builder: the nodes and errors so far, the nodes that are
/// started and not finished, each with the child it got last, innermost last,
/// and how far into the text the tokens reach.
pub struct BuilderView {
    pub file: FileView,
    pub stack: Seq<(int, Option<int>)>,
    pub pos: int,
}

/// Whether the node `i` is started and not finished.
pub open spec fn on_stack(stack: Seq<(int, Option<int>)>, i: int) -> bool {
    exists|j: int| 0 <= j < stack.len() && (#[trigger] stack[j]).0 == i
}

/// The place at which an error of node `n` is put: behind the errors of `n`
/// and of every node before it.
pub open spec fn upper_bound(errors: Seq<ErrorView>, n: int) -> int
    decreases errors.len(),
{
    if errors.len() == 0 {
        0
    } else if errors.last().node <= n {
        errors.len() as int
    } else {
        upper_bound(errors.drop_last(), n)
    }
}

/// A new node without children.
pub open spec fn fresh_node(kind: SyntaxKind, start: int, end: int, parent: Option<int>) -> NodeView {
    NodeView { kind, start, end, parent, first_child: None, next_sibling: None }
}

/// The nodes after the node `c` was made known to the node before it: to the
/// last child of its parent `t` as the next sibling, or, where `t` had no
/// child, to `t` as its first child.
pub open spec fn linked(nodes: Seq<NodeView>, t: int, last: Option<int>, c: int) -> Seq<NodeView> {
    match last {
        Some(l) => nodes.update(l, NodeView { next_sibling: Some(c), ..nodes[l] }),
        None => nodes.update(t, NodeView { first_child: Some(c), ..nodes[t] }),
    }
}

impl BuilderView {
    /// The builder before the first call.
    pub open spec fn start(text: Seq<u8>) -> BuilderView {
        BuilderView {
            file: FileView { text, nodes: Seq::empty(), errors: Seq::empty() },
            stack: Seq::empty(),
            pos: 0,
        }
    }

    /// The nodes that are started and not finished.
    pub open spec fn open(self) -> Set<int> {
        Set::new(|i: int| on_stack(self.stack, i))
    }

    /// Whether the call is in order: a node is started either as the root or
    /// under a node being built; a token, an error and a finish need a node
    /// being built; a token must end in the text, on a character boundary.
    pub open spec fn admits(self, event: TreeEventView) -> bool {
        match event {
            TreeEventView::Start { kind } => (self.stack.len() > 0 || self.file.nodes.len() == 0)
                && self.file.nodes.len() < u32::MAX,
            TreeEventView::Finish => self.stack.len() > 0,
            TreeEventView::Token { kind, len } => {
                &&& self.stack.len() > 0
                &&& self.file.nodes.len() < u32::MAX
                &&& 0 <= len
                &&& self.pos + len <= self.file.text.len()
                &&& is_char_boundary(self.file.text, self.pos + len)
            },
            TreeEventView::Error { message } => self.stack.len() > 0 && self.file.errors.len()
                < u32::MAX,
        }
    }

    /// The builder after a new node was put under the node being built.
    pub open spec fn with_child(self, node: NodeView) -> Seq<NodeView> {
        let (t, last) = self.stack.last();
        linked(self.file.nodes, t, last, self.file.nodes.len() as int).push(node)
    }

    /// The builder after a call.
    pub open spec fn apply(self, event: TreeEventView) -> BuilderView {
        let c = self.file.nodes.len() as int;
        match event {
            TreeEventView::Start { kind } => if self.stack.len() == 0 {
                BuilderView {
                    file: FileView {
                        nodes: seq![fresh_node(kind, self.pos, self.pos, None)],
                        ..self.file
                    },
                    stack: seq![(0int, None::<int>)],
                    pos: self.pos,
                }
            } else {
                BuilderView {
                    file: FileView {
                        nodes: self.with_child(
                            fresh_node(kind, self.pos, self.pos, Some(self.stack.last().0)),
                        ),
                        ..self.file
                    },
                    stack: self.stack.drop_last().push((self.stack.last().0, Some(c))).push(
                        (c, None::<int>),
                    ),
                    pos: self.pos,
                }
            },
            TreeEventView::Token { kind, len } => BuilderView {
                file: FileView {
                    nodes: self.with_child(
                        fresh_node(kind, self.pos, self.pos + len, Some(self.stack.last().0)),
                    ),
                    ..self.file
                },
                stack: self.stack.drop_last().push((self.stack.last().0, Some(c))),
                pos: self.pos + len,
            },
            TreeEventView::Finish => BuilderView {
                file: FileView {
                    nodes: self.file.nodes.update(
                        self.stack.last().0,
                        NodeView { end: self.pos, ..self.file.nodes[self.stack.last().0] },
                    ),
                    ..self.file
                },
                stack: self.stack.drop_last(),
                pos: self.pos,
            },
            TreeEventView::Error { message } => BuilderView {
                file: FileView {
                    errors: self.file.errors.insert(
                        upper_bound(self.file.errors, self.stack.last().0),
                        ErrorView { node: self.stack.last().0, message },
                    ),
                    ..self.file
                },
                ..self
            },
        }
    }

    /// Whether `j` is a place of the list of nodes being built.
    pub open spec fn at(self, j: int) -> bool {
        0 <= j < self.stack.len()
    }

    /// The nodes being built form the path from the root to the innermost of
    /// them, and each is listed with the child it got last.
    pub open spec fn stack_ok(self) -> bool {
        &&& self.file.nodes.len() == 0 ==> self.stack.len() == 0 && self.pos == 0
        &&& self.stack.len() > 0 ==> self.stack[0].0 == 0
        &&& forall|j: int| #[trigger] self.at(j) ==> 0 <= self.stack[j].0 < self.file.nodes.len()
        &&& forall|j: int, k: int|
            #[trigger] self.at(j) && #[trigger] self.at(k) && j + 1 == k ==> {
                &&& self.file.nodes[self.stack[k].0].parent == Some(self.stack[j].0)
                &&& self.stack[j].1 == Some(self.stack[k].0)
            }
        &&& forall|j: int| #[trigger]
            self.at(j) ==> match self.stack[j].1 {
                Some(l) => {
                    &&& 0 <= l < self.file.nodes.len()
                    &&& self.file.nodes[l].parent == Some(self.stack[j].0)
                    &&& self.file.nodes[l].next_sibling is None
                },
                None => self.file.nodes[self.stack[j].0].first_child is None,
            }
        &&& forall|j: int| #[trigger]
            self.at(j) ==> self.file.nodes[self.stack[j].0].next_sibling is None
    }

    /// What holds of the builder between two calls.
    pub open spec fn inv(self) -> bool {
        &&& self.file.tree_ok(self.open(), self.pos)
        &&& self.stack_ok()
    }

    /// Whether the builder holds a finished tree that covers the text.
    pub open spec fn complete(self) -> bool {
        &&& self.stack.len() == 0
        &&& self.file.nodes.len() > 0
        &&& self.pos == self.file.text.len()
    }

    /// The builder after a run of calls.
    pub open spec fn replay(self, events: Seq<TreeEventView>) -> BuilderView
        decreases events.len(),
    {
        if events.len() == 0 {
            self
        } else {
            self.replay(events.drop_last()).apply(events.last())
        }
    }

    /// Whether every call of a run is in order when its turn comes.
    pub open spec fn admits_all(self, events: Seq<TreeEventView>) -> bool
        decreases events.len(),
    {
        if events.len() == 0 {
            true
        } else {
            self.admits_all(events.drop_last()) && self.replay(events.drop_last()).admits(
                events.last(),
            )
        }
    }
}

/// The nodes being built are listed in increasing order of index.
pub proof fn lemma_stack_increasing(b: BuilderView, j: int, k: int)
    requires
        b.inv(),
        0 <= j < k < b.stack.len(),
    ensures
        b.stack[j].0 < b.stack[k].0,
    decreases k - j,
{
    assert(b.at(k) && b.at(k - 1));
    assert(b.file.has(b.stack[k].0));
    if j < k - 1 {
        lemma_stack_increasing(b, j, k - 1);
    }
}

/// The parent of a node being built is being built too; the child that the
/// innermost of them got last is finished; and so is every node that has a
/// next sibling.
pub proof fn lemma_open_parent(b: BuilderView)
    requires
        b.inv(),
    ensures
        forall|c: int, p: int|
            0 <= c < b.file.nodes.len() && on_stack(b.stack, c) && #[trigger] b.file.child_of(c, p)
                ==> on_stack(b.stack, p),
        b.stack.len() > 0 ==> (b.stack.last().1 matches Some(l) ==> !on_stack(b.stack, l)),
        forall|c: int|
            0 <= c < b.file.nodes.len() && b.file.nodes[c].next_sibling is Some ==> !#[trigger] on_stack(
                b.stack,
                c,
            ),
{
    assert forall|c: int, p: int|
        0 <= c < b.file.nodes.len() && on_stack(b.stack, c) && #[trigger] b.file.child_of(
            c,
            p,
        ) implies on_stack(b.stack, p) by {
        let j = choose|j: int| 0 <= j < b.stack.len() && (#[trigger] b.stack[j]).0 == c;
        if j == 0 {
            assert(b.file.has(0));
        } else {
            assert(b.at(j) && b.at(j - 1));
            assert(b.stack[j - 1].0 == p);
        }
    }
    if b.stack.len() > 0 {
        let top = b.stack.len() - 1;
        assert(b.at(top));
        match b.stack.last().1 {
            Some(l) => {
                if on_stack(b.stack, l) {
                    let j = choose|j: int| 0 <= j < b.stack.len() && (#[trigger] b.stack[j]).0 == l;
                    if j == 0 {
                        assert(b.file.has(0));
                    } else {
                        assert(b.at(j) && b.at(j - 1));
                        assert(b.stack[j - 1].0 == b.stack[top].0);
                        if j - 1 < top {
                            lemma_stack_increasing(b, j - 1, top);
                        }
                    }
                }
            },
            None => {},
        }
    }
    assert forall|c: int|
        0 <= c < b.file.nodes.len() && b.file.nodes[c].next_sibling is Some implies !#[trigger] on_stack(
        b.stack,
        c,
    ) by {
        if on_stack(b.stack, c) {
            let j = choose|j: int| 0 <= j < b.stack.len() && (#[trigger] b.stack[j]).0 == c;
            assert(b.at(j));
        }
    }
}

/// Finishing a node keeps what holds of the builder.
#[verifier::rlimit(60)]
pub proof fn lemma_finish_ok(b: BuilderView)
    requires
        b.inv(),
        b.admits(TreeEventView::Finish),
    ensures
        b.apply(TreeEventView::Finish).inv(),
{
    let a = b.apply(TreeEventView::Finish);
    let top = b.stack.len() - 1;
    let id = b.stack[top].0;
    assert(b.at(top));
    assert forall|i: int| on_stack(a.stack, i) <==> (on_stack(b.stack, i) && i != id) by {
        if on_stack(a.stack, i) {
            let j = choose|j: int| 0 <= j < a.stack.len() && (#[trigger] a.stack[j]).0 == i;
            assert(b.stack[j].0 == i);
            lemma_stack_increasing(b, j, top);
        }
        if on_stack(b.stack, i) && i != id {
            let j = choose|j: int| 0 <= j < b.stack.len() && (#[trigger] b.stack[j]).0 == i;
            assert(a.stack[j].0 == i);
        }
    }
    assert(on_stack(b.stack, id)) by {
        assert(b.stack[top].0 == id);
    }
    assert forall|i: int| 0 <= i < a.file.nodes.len() implies #[trigger] a.file.end_of(
        a.open(),
        a.pos,
        i,
    ) == b.file.end_of(b.open(), b.pos, i) by {}
    assert(a.file.parents_ok()) by {
        assert forall|i: int| #[trigger] a.file.has(i) implies match a.file.nodes[i].parent {
            None => i == 0,
            Some(p) => 0 <= p < i,
        } by {
            assert(b.file.has(i));
        }
    }
    assert(a.file.first_children_ok()) by {
        assert forall|p: int| #[trigger] a.file.has(p) implies match a.file.nodes[p].first_child {
            Some(c) => {
                &&& p < c < a.file.nodes.len()
                &&& a.file.child_of(c, p)
                &&& forall|e: int|
                    0 <= e < a.file.nodes.len() && #[trigger] a.file.child_of(e, p) ==> c <= e
            },
            None => forall|e: int|
                0 <= e < a.file.nodes.len() ==> !#[trigger] a.file.child_of(e, p),
        } by {
            assert(b.file.has(p));
            match b.file.nodes[p].first_child {
                Some(c) => {
                    assert forall|e: int|
                        0 <= e < a.file.nodes.len() && #[trigger] a.file.child_of(
                            e,
                            p,
                        ) implies c <= e by {
                        assert(b.file.child_of(e, p));
                    }
                },
                None => {
                    assert forall|e: int| 0 <= e < a.file.nodes.len() implies !#[trigger] a.file.child_of(
                        e,
                        p,
                    ) by {
                        assert(!b.file.child_of(e, p));
                    }
                },
            }
        }
    }
    assert(a.file.next_siblings_ok()) by {
        assert forall|c: int| #[trigger] a.file.has(c) implies match a.file.nodes[c].next_sibling {
            Some(d) => {
                &&& c < d < a.file.nodes.len()
                &&& a.file.nodes[d].parent == a.file.nodes[c].parent
                &&& forall|e: int|
                    c < e < d && #[trigger] a.file.has(e) ==> a.file.nodes[e].parent
                        != a.file.nodes[c].parent
            },
            None => forall|e: int|
                c < e && #[trigger] a.file.has(e) ==> a.file.nodes[e].parent
                    != a.file.nodes[c].parent,
        } by {
            assert(b.file.has(c));
            match b.file.nodes[c].next_sibling {
                Some(d) => {
                    assert forall|e: int| c < e < d && #[trigger] a.file.has(
                        e,
                    ) implies a.file.nodes[e].parent != a.file.nodes[c].parent by {
                        assert(b.file.has(e));
                    }
                },
                None => {
                    assert forall|e: int| c < e && #[trigger] a.file.has(
                        e,
                    ) implies a.file.nodes[e].parent != a.file.nodes[c].parent by {
                        assert(b.file.has(e));
                    }
                },
            }
        }
    }
    assert(a.file.ranges_ok(a.open(), a.pos)) by {
        assert forall|i: int| #[trigger] a.file.has(i) implies {
            &&& 0 <= a.file.nodes[i].start <= a.file.end_of(a.open(), a.pos, i) <= a.pos
            &&& is_char_boundary(a.file.text, a.file.nodes[i].start)
            &&& is_char_boundary(a.file.text, a.file.end_of(a.open(), a.pos, i))
        } by {
            assert(b.file.has(i));
        }
        assert forall|c: int, p: int|
            0 <= c < a.file.nodes.len() && #[trigger] a.file.child_of(c, p) implies {
            &&& a.file.nodes[p].start <= a.file.nodes[c].start
            &&& a.file.end_of(a.open(), a.pos, c) <= a.file.end_of(a.open(), a.pos, p)
        } by {
            assert(b.file.child_of(c, p));
            assert(b.file.has(c));
        }
        assert forall|c: int| #[trigger] a.file.has(c) implies match a.file.nodes[c].next_sibling {
            Some(d) => a.file.end_of(a.open(), a.pos, c) <= a.file.nodes[d].start,
            None => true,
        } by {
            assert(b.file.has(c));
        }
    }
    assert(a.stack_ok()) by {
        assert forall|j: int| #[trigger] a.at(j) implies 0 <= a.stack[j].0 < a.file.nodes.len() by {
            assert(b.at(j));
        }
        assert forall|j: int, k: int|
            #[trigger] a.at(j) && #[trigger] a.at(k) && j + 1 == k implies {
            &&& a.file.nodes[a.stack[k].0].parent == Some(a.stack[j].0)
            &&& a.stack[j].1 == Some(a.stack[k].0)
        } by {
            assert(b.at(j) && b.at(k));
        }
        assert forall|j: int| #[trigger] a.at(j) implies match a.stack[j].1 {
            Some(l) => {
                &&& 0 <= l < a.file.nodes.len()
                &&& a.file.nodes[l].parent == Some(a.stack[j].0)
                &&& a.file.nodes[l].next_sibling is None
            },
            None => a.file.nodes[a.stack[j].0].first_child is None,
        } by {
            assert(b.at(j));
        }
        assert forall|j: int| #[trigger] a.at(j) implies a.file.nodes[a.stack[j].0].next_sibling
            is None by {
            assert(b.at(j));
        }
    }
}

/// A new node under the node being built leaves every other node as it was,
/// but for the link that makes the new node known.
pub proof fn lemma_with_child_same(b: BuilderView, node: NodeView)
    requires
        b.inv(),
        b.stack.len() > 0,
    ensures
        b.with_child(node).len() == b.file.nodes.len() + 1,
        b.with_child(node)[b.file.nodes.len() as int] == node,
        forall|i: int|
            0 <= i < b.file.nodes.len() ==> {
                &&& (#[trigger] b.with_child(node)[i]).kind == b.file.nodes[i].kind
                &&& b.with_child(node)[i].start == b.file.nodes[i].start
                &&& b.with_child(node)[i].end == b.file.nodes[i].end
                &&& b.with_child(node)[i].parent == b.file.nodes[i].parent
                &&& b.with_child(node)[i].first_child == if i == b.stack.last().0
                    && b.stack.last().1 is None {
                    Some(b.file.nodes.len() as int)
                } else {
                    b.file.nodes[i].first_child
                }
                &&& b.with_child(node)[i].next_sibling == if b.stack.last().1 == Some(i) {
                    Some(b.file.nodes.len() as int)
                } else {
                    b.file.nodes[i].next_sibling
                }
            },
{
    let top = b.stack.len() - 1;
    assert(b.at(top));
}

/// A new node under the node being built keeps the links of the tree sound.
#[verifier::rlimit(60)]
pub proof fn lemma_with_child_links(b: BuilderView, node: NodeView)
    requires
        b.inv(),
        b.stack.len() > 0,
        b.file.nodes.len() < u32::MAX,
        node.parent == Some(b.stack.last().0),
        node.first_child is None,
        node.next_sibling is None,
    ensures
        (FileView { nodes: b.with_child(node), ..b.file }).parents_ok(),
        (FileView { nodes: b.with_child(node), ..b.file }).first_children_ok(),
        (FileView { nodes: b.with_child(node), ..b.file }).next_siblings_ok(),
{
    let a = FileView { nodes: b.with_child(node), ..b.file };
    let c = b.file.nodes.len() as int;
    let top = b.stack.len() - 1;
    let t = b.stack[top].0;
    let last = b.stack[top].1;
    assert(b.at(top));
    assert(b.file.has(t));
    lemma_with_child_same(b, node);
    assert(a.parents_ok()) by {
        assert forall|i: int| #[trigger] a.has(i) implies match a.nodes[i].parent {
            None => i == 0,
            Some(p) => 0 <= p < i,
        } by {
            if i < c {
                assert(b.file.has(i));
            }
        }
    }
    assert(a.first_children_ok()) by {
        assert forall|p: int| #[trigger] a.has(p) implies match a.nodes[p].first_child {
            Some(fc) => {
                &&& p < fc < a.nodes.len()
                &&& a.child_of(fc, p)
                &&& forall|e: int| 0 <= e < a.nodes.len() && #[trigger] a.child_of(e, p) ==> fc <= e
            },
            None => forall|e: int| 0 <= e < a.nodes.len() ==> !#[trigger] a.child_of(e, p),
        } by {
            if p == c {
                assert forall|e: int| 0 <= e < a.nodes.len() implies !#[trigger] a.child_of(
                    e,
                    p,
                ) by {
                    if e < c {
                        assert(b.file.has(e));
                    }
                }
            } else {
                assert(b.file.has(p));
                match b.file.nodes[p].first_child {
                    Some(fc) => {
                        assert(a.nodes[p].first_child == Some(fc)) by {
                            if p == t && last is None {
                            }
                        }
                        assert forall|e: int|
                            0 <= e < a.nodes.len() && #[trigger] a.child_of(e, p) implies fc <= e by {
                            if e < c {
                                assert(b.file.child_of(e, p));
                            }
                        }
                    },
                    None => {
                        if p == t {
                            // the node being built had no child, so it had none listed
                            match last {
                                Some(l) => {
                                    assert(b.file.child_of(l, t));
                                },
                                None => {},
                            }
                            assert(a.nodes[p].first_child == Some(c));
                            assert forall|e: int|
                                0 <= e < a.nodes.len() && #[trigger] a.child_of(e, p) implies c
                                <= e by {
                                if e < c {
                                    assert(b.file.child_of(e, p));
                                }
                            }
                        } else {
                            assert(a.nodes[p].first_child is None);
                            assert forall|e: int| 0 <= e < a.nodes.len() implies !#[trigger] a.child_of(
                                e,
                                p,
                            ) by {
                                if e < c {
                                    assert(!b.file.child_of(e, p));
                                }
                            }
                        }
                    },
                }
            }
        }
    }
    assert(a.next_siblings_ok()) by {
        assert forall|x: int| #[trigger] a.has(x) implies match a.nodes[x].next_sibling {
            Some(d) => {
                &&& x < d < a.nodes.len()
                &&& a.nodes[d].parent == a.nodes[x].parent
                &&& forall|e: int|
                    x < e < d && #[trigger] a.has(e) ==> a.nodes[e].parent != a.nodes[x].parent
            },
            None => forall|e: int|
                x < e && #[trigger] a.has(e) ==> a.nodes[e].parent != a.nodes[x].parent,
        } by {
            if x == c {
            } else {
                assert(b.file.has(x));
                if last == Some(x) {
                    assert forall|e: int| x < e < c && #[trigger] a.has(e) implies a.nodes[e].parent
                        != a.nodes[x].parent by {
                        assert(b.file.has(e));
                    }
                } else {
                    match b.file.nodes[x].next_sibling {
                        Some(d) => {
                            assert forall|e: int| x < e < d && #[trigger] a.has(
                                e,
                            ) implies a.nodes[e].parent != a.nodes[x].parent by {
                                assert(b.file.has(e));
                            }
                        },
                        None => {
                            assert forall|e: int| x < e && #[trigger] a.has(
                                e,
                            ) implies a.nodes[e].parent != a.nodes[x].parent by {
                                if e < c {
                                    assert(b.file.has(e));
                                } else {
                                    // the new node: x is no child of the node being built
                                    if b.file.nodes[x].parent == Some(t) {
                                        match last {
                                            Some(l) => {
                                                assert(b.file.has(l));
                                                if x < l {
                                                } else {
                                                    assert(l < x);
                                                }
                                            },
                                            None => {
                                                assert(b.file.child_of(x, t));
                                            },
                                        }
                                    }
                                }
                            }
                        },
                    }
                }
            }
        }
    }
}

/// A new node under the node being built keeps the ranges and the list of
/// nodes being built sound, whether the new node is a leaf that takes `len`
/// bytes or a node that is itself being built from now on.
#[verifier::rlimit(60)]
proof fn lemma_child_ok(b: BuilderView, kind: SyntaxKind, len: int, leaf: bool)
    requires
        b.inv(),
        b.stack.len() > 0,
        b.file.nodes.len() < u32::MAX,
        0 <= len,
        b.pos + len <= b.file.text.len(),
        is_char_boundary(b.file.text, b.pos + len),
        !leaf ==> len == 0,
    ensures
        leaf ==> b.apply(TreeEventView::Token { kind, len }).inv(),
        !leaf ==> b.apply(TreeEventView::Start { kind }).inv(),
{
    let a = if leaf {
        b.apply(TreeEventView::Token { kind, len })
    } else {
        b.apply(TreeEventView::Start { kind })
    };
    let c = b.file.nodes.len() as int;
    let top = b.stack.len() - 1;
    let t = b.stack[top].0;
    let last = b.stack[top].1;
    let node = fresh_node(kind, b.pos, b.pos + len, Some(t));
    assert(b.at(top));
    assert(b.file.has(t));
    assert(a.file.nodes == b.with_child(node));
    assert(a.file == (FileView { nodes: b.with_child(node), ..b.file }));
    lemma_with_child_same(b, node);
    lemma_with_child_links(b, node);
    lemma_open_parent(b);
    assert(on_stack(b.stack, t)) by {
        assert(b.stack[top].0 == t);
    }
    assert forall|i: int| on_stack(a.stack, i) <==> (on_stack(b.stack, i) || (!leaf && i == c)) by {
        if on_stack(a.stack, i) {
            let j = choose|j: int| 0 <= j < a.stack.len() && (#[trigger] a.stack[j]).0 == i;
            if j <= top {
                assert(b.stack[j].0 == i);
            }
        }
        if on_stack(b.stack, i) {
            let j = choose|j: int| 0 <= j < b.stack.len() && (#[trigger] b.stack[j]).0 == i;
            assert(a.stack[j].0 == i);
        }
        if !leaf && i == c {
            assert(a.stack[top + 1].0 == c);
        }
    }
    assert(!on_stack(b.stack, c)) by {
        if on_stack(b.stack, c) {
            let j = choose|j: int| 0 <= j < b.stack.len() && (#[trigger] b.stack[j]).0 == c;
            assert(b.at(j));
        }
    }
    assert forall|i: int| 0 <= i < c implies b.file.end_of(b.open(), b.pos, i) <= #[trigger] a.file.end_of(
        a.open(),
        a.pos,
        i,
    ) && (!on_stack(b.stack, i) ==> a.file.end_of(a.open(), a.pos, i) == b.file.nodes[i].end)
        && (on_stack(b.stack, i) ==> a.file.end_of(a.open(), a.pos, i) == a.pos) by {
        assert(b.file.has(i));
    }
    assert(a.file.end_of(a.open(), a.pos, c) == a.pos);
    assert(a.file.ranges_ok(a.open(), a.pos)) by {
        assert forall|i: int| #[trigger] a.file.has(i) implies {
            &&& 0 <= a.file.nodes[i].start <= a.file.end_of(a.open(), a.pos, i) <= a.pos
            &&& is_char_boundary(a.file.text, a.file.nodes[i].start)
            &&& is_char_boundary(a.file.text, a.file.end_of(a.open(), a.pos, i))
        } by {
            if i < c {
                assert(b.file.has(i));
            }
        }
        assert forall|x: int, p: int|
            0 <= x < a.file.nodes.len() && #[trigger] a.file.child_of(x, p) implies {
            &&& a.file.nodes[p].start <= a.file.nodes[x].start
            &&& a.file.end_of(a.open(), a.pos, x) <= a.file.end_of(a.open(), a.pos, p)
        } by {
            if x < c {
                assert(b.file.child_of(x, p));
                assert(b.file.has(x));
                assert(0 <= p < x);
                assert(b.file.has(p));
                if on_stack(b.stack, x) {
                    assert(on_stack(b.stack, p));
                }
            } else {
                assert(p == t);
            }
        }
        assert forall|x: int| #[trigger] a.file.has(x) implies match a.file.nodes[x].next_sibling {
            Some(d) => a.file.end_of(a.open(), a.pos, x) <= a.file.nodes[d].start,
            None => true,
        } by {
            if x < c {
                assert(b.file.has(x));
                if last == Some(x) {
                    assert(!on_stack(b.stack, x));
                } else {
                    match b.file.nodes[x].next_sibling {
                        Some(d) => {
                            assert(!on_stack(b.stack, x));
                        },
                        None => {},
                    }
                }
            }
        }
    }
    assert(a.stack_ok()) by {
        assert forall|j: int| #[trigger] a.at(j) implies 0 <= a.stack[j].0 < a.file.nodes.len() by {
            if j <= top {
                assert(b.at(j));
            }
        }
        assert forall|j: int, k: int|
            #[trigger] a.at(j) && #[trigger] a.at(k) && j + 1 == k implies {
            &&& a.file.nodes[a.stack[k].0].parent == Some(a.stack[j].0)
            &&& a.stack[j].1 == Some(a.stack[k].0)
        } by {
            if k <= top {
                assert(b.at(j) && b.at(k));
            }
        }
        assert forall|j: int| #[trigger] a.at(j) implies match a.stack[j].1 {
            Some(l) => {
                &&& 0 <= l < a.file.nodes.len()
                &&& a.file.nodes[l].parent == Some(a.stack[j].0)
                &&& a.file.nodes[l].next_sibling is None
            },
            None => a.file.nodes[a.stack[j].0].first_child is None,
        } by {
            if j < top {
                assert(b.at(j) && b.at(j + 1));
                // the child listed is the next node being built
                let l = b.stack[j + 1].0;
                assert(b.stack[j].1 == Some(l));
                assert(on_stack(b.stack, l)) by {
                    assert(b.stack[j + 1].0 == l);
                }
                assert(last != Some(l));
            }
        }
        assert forall|j: int| #[trigger] a.at(j) implies a.file.nodes[a.stack[j].0].next_sibling
            is None by {
            if j <= top {
                assert(b.at(j));
                assert(on_stack(b.stack, b.stack[j].0));
                assert(last != Some(b.stack[j].0));
            }
        }
    }
}

/// The place at which an error is put keeps the errors sorted.
pub proof fn lemma_upper_bound(errors: Seq<ErrorView>, n: int)
    requires
        errors_sorted(errors),
    ensures
        0 <= upper_bound(errors, n) <= errors.len(),
        forall|i: int| 0 <= i < upper_bound(errors, n) ==> (#[trigger] errors[i]).node <= n,
        forall|i: int| upper_bound(errors, n) <= i < errors.len() ==> (#[trigger] errors[i]).node > n,
    decreases errors.len(),
{
    if errors.len() > 0 {
        if errors.last().node <= n {
            assert forall|i: int| 0 <= i < errors.len() implies (#[trigger] errors[i]).node <= n by {
                assert(errors[i].node <= errors[errors.len() - 1].node);
            }
        } else {
            let init = errors.drop_last();
            assert(errors_sorted(init)) by {
                assert forall|i: int, j: int| 0 <= i <= j < init.len() implies (
                #[trigger] init[i]).node <= (#[trigger] init[j]).node by {
                    assert(errors[i].node <= errors[j].node);
                }
            }
            lemma_upper_bound(init, n);
            assert forall|i: int| upper_bound(errors, n) <= i < errors.len() implies (
            #[trigger] errors[i]).node > n by {
                if i < init.len() {
                    assert(init[i].node > n);
                }
            }
            assert forall|i: int| 0 <= i < upper_bound(errors, n) implies (
            #[trigger] errors[i]).node <= n by {
                assert(init[i].node <= n);
            }
        }
    }
}

/// Every call that is in order keeps what holds of the builder.
#[verifier::rlimit(60)]
pub proof fn lemma_apply_ok(b: BuilderView, event: TreeEventView)
    requires
        b.inv(),
        b.admits(event),
    ensures
        b.apply(event).inv(),
{
    match event {
        TreeEventView::Finish => {
            lemma_finish_ok(b);
        },
        TreeEventView::Token { kind, len } => {
            lemma_child_ok(b, kind, len, true);
        },
        TreeEventView::Start { kind } => {
            if b.stack.len() > 0 {
                lemma_child_ok(b, kind, 0, false);
            } else {
                let a = b.apply(event);
                assert(a.stack[0].0 == 0);
                assert(on_stack(a.stack, 0));
                assert(a.file.end_of(a.open(), a.pos, 0) == a.pos);
                assert(b.file.errors.len() == 0) by {
                    if b.file.errors.len() > 0 {
                        assert(0 <= b.file.errors[0].node < b.file.nodes.len());
                    }
                }
                assert(a.file.parents_ok());
                assert(a.file.first_children_ok());
                assert(a.file.next_siblings_ok());
                assert(a.file.ranges_ok(a.open(), a.pos));
                assert(a.file.errors_ok());
                assert(a.stack_ok());
            }
        },
        TreeEventView::Error { message } => {
            let a = b.apply(event);
            let top = b.stack.len() - 1;
            let t = b.stack[top].0;
            assert(b.at(top));
            lemma_upper_bound(b.file.errors, t);
            let k = upper_bound(b.file.errors, t);
            assert(a.file.errors_ok()) by {
                assert forall|i: int, j: int| 0 <= i <= j < a.file.errors.len() implies (
                #[trigger] a.file.errors[i]).node <= (#[trigger] a.file.errors[j]).node by {
                    let ni = if i < k {
                        b.file.errors[i].node
                    } else if i == k {
                        t
                    } else {
                        b.file.errors[i - 1].node
                    };
                    let nj = if j < k {
                        b.file.errors[j].node
                    } else if j == k {
                        t
                    } else {
                        b.file.errors[j - 1].node
                    };
                    assert(a.file.errors[i].node == ni);
                    assert(a.file.errors[j].node == nj);
                    if i < k && j < k {
                        assert(b.file.errors[i].node <= b.file.errors[j].node);
                    }
                    if i > k && j > k {
                        assert(b.file.errors[i - 1].node <= b.file.errors[j - 1].node);
                    }
                }
                assert forall|i: int| 0 <= i < a.file.errors.len() implies 0 <= (
                #[trigger] a.file.errors[i]).node < a.file.nodes.len() by {
                    if i < k {
                        assert(a.file.errors[i] == b.file.errors[i]);
                        assert(0 <= b.file.errors[i].node < b.file.nodes.len());
                    } else if i > k {
                        assert(a.file.errors[i] == b.file.errors[i - 1]);
                        assert(0 <= b.file.errors[i - 1].node < b.file.nodes.len());
                    }
                }
            }
            assert(a.stack_ok()) by {
                assert forall|j: int| #[trigger] a.at(j) implies b.at(j) by {}
            }
            assert(a.open() == b.open());
            lemma_same_nodes(b.file, a.file, b.open(), b.pos);
        },
    }
}

/// What holds of the nodes does not depend on the errors.
#[verifier::rlimit(60)]
proof fn lemma_same_nodes(b: FileView, a: FileView, open: Set<int>, pos: int)
    requires
        a.nodes == b.nodes,
        a.text == b.text,
        b.parents_ok(),
        b.first_children_ok(),
        b.next_siblings_ok(),
        b.ranges_ok(open, pos),
    ensures
        a.parents_ok(),
        a.first_children_ok(),
        a.next_siblings_ok(),
        a.ranges_ok(open, pos),
{
    assert forall|i: int| #[trigger] a.has(i) implies match a.nodes[i].parent {
        None => i == 0,
        Some(p) => 0 <= p < i,
    } by {
        assert(b.has(i));
    }
    assert forall|p: int| #[trigger] a.has(p) implies match a.nodes[p].first_child {
        Some(c) => {
            &&& p < c < a.nodes.len()
            &&& a.child_of(c, p)
            &&& forall|e: int| 0 <= e < a.nodes.len() && #[trigger] a.child_of(e, p) ==> c <= e
        },
        None => forall|e: int| 0 <= e < a.nodes.len() ==> !#[trigger] a.child_of(e, p),
    } by {
        assert(b.has(p));
        match b.nodes[p].first_child {
            Some(c) => {
                assert forall|e: int|
                    0 <= e < a.nodes.len() && #[trigger] a.child_of(e, p) implies c <= e by {
                    assert(b.child_of(e, p));
                }
            },
            None => {
                assert forall|e: int| 0 <= e < a.nodes.len() implies !#[trigger] a.child_of(
                    e,
                    p,
                ) by {
                    assert(!b.child_of(e, p));
                }
            },
        }
    }
    assert forall|c: int| #[trigger] a.has(c) implies match a.nodes[c].next_sibling {
        Some(d) => {
            &&& c < d < a.nodes.len()
            &&& a.nodes[d].parent == a.nodes[c].parent
            &&& forall|e: int|
                c < e < d && #[trigger] a.has(e) ==> a.nodes[e].parent != a.nodes[c].parent
        },
        None => forall|e: int| c < e && #[trigger] a.has(e) ==> a.nodes[e].parent != a.nodes[c].parent,
    } by {
        assert(b.has(c));
        match b.nodes[c].next_sibling {
            Some(d) => {
                assert forall|e: int| c < e < d && #[trigger] a.has(e) implies a.nodes[e].parent
                    != a.nodes[c].parent by {
                    assert(b.has(e));
                }
            },
            None => {
                assert forall|e: int| c < e && #[trigger] a.has(e) implies a.nodes[e].parent
                    != a.nodes[c].parent by {
                    assert(b.has(e));
                }
            },
        }
    }
    assert forall|i: int| #[trigger] a.has(i) implies {
        &&& 0 <= a.nodes[i].start <= a.end_of(open, pos, i) <= pos
        &&& is_char_boundary(a.text, a.nodes[i].start)
        &&& is_char_boundary(a.text, a.end_of(open, pos, i))
    } by {
        assert(b.has(i));
    }
    assert forall|c: int, p: int| 0 <= c < a.nodes.len() && #[trigger] a.child_of(c, p) implies {
        &&& a.nodes[p].start <= a.nodes[c].start
        &&& a.end_of(open, pos, c) <= a.end_of(open, pos, p)
    } by {
        assert(b.child_of(c, p));
    }
    assert forall|c: int| #[trigger] a.has(c) implies match a.nodes[c].next_sibling {
        Some(d) => a.end_of(open, pos, c) <= a.nodes[d].start,
        None => true,
    } by {
        assert(b.has(c));
    }
}

/// The builder holds what is asked of it before the first call.
pub proof fn lemma_start_ok(text: Seq<u8>)
    requires
        text.len() <= u32::MAX,
        vstd::utf8::valid_utf8(text),
    ensures
        BuilderView::start(text).inv(),
{
    vstd::utf8::is_char_boundary_start_end_of_seq(text);
}

/// What a builder holds when the tree is complete is a well-formed file: the
/// range of every node lies within that of its parent, siblings follow each
/// other without overlap, and the errors of each node form one run.
pub proof fn lemma_complete_wf(b: BuilderView)
    requires
        b.inv(),
        b.complete(),
    ensures
        b.file.wf(),
{
    assert(b.open() =~= Set::<int>::empty()) by {
        assert forall|i: int| !b.open().contains(i) by {
            if on_stack(b.stack, i) {
                let j = choose|j: int| 0 <= j < b.stack.len() && (#[trigger] b.stack[j]).0 == i;
            }
        }
    }
}

/// A log can be replayed in two parts: replaying the second part on what the
/// first part built gives what the whole log builds, and the whole log is in
/// order exactly if both parts are when their turn comes.
pub proof fn lemma_replay_concat(b: BuilderView, first: Seq<TreeEventView>, second: Seq<TreeEventView>)
    ensures
        b.replay(first + second) == b.replay(first).replay(second),
        b.admits_all(first + second) == (b.admits_all(first) && b.replay(first).admits_all(second)),
    decreases second.len(),
{
    if second.len() == 0 {
        assert(first + second =~= first);
    } else {
        assert((first + second).drop_last() =~= first + second.drop_last());
        assert((first + second).last() == second.last());
        lemma_replay_concat(b, first, second.drop_last());
    }
}

} // verus!
