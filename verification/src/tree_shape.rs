//! The shape of a tree that the builder makes: the nodes are numbered in the
//! order in which they were started, and the children of a node cover its
//! range without a gap.

use crate::builder_model::{
    lemma_open_parent, lemma_stack_increasing, lemma_upper_bound, lemma_with_child_same, on_stack,
    upper_bound, BuilderView, TreeEventView, fresh_node,
};
use crate::tree_model::{FileView, NodeView};
use vstd::prelude::*;

verus! {

impl FileView {
    /// Whether the node `a` is the node `n` or one of the nodes above it.
    pub open spec fn above(self, a: int, n: int) -> bool
        decreases n,
    {
        if a == n {
            true
        } else if n <= 0 {
            false
        } else {
            match self.nodes[n].parent {
                Some(p) => 0 <= p < n && self.above(a, p),
                None => false,
            }
        }
    }

    /// The nodes are numbered in the order in which they were started: the
    /// parent of a node is the node before it, or a node above that one.
    pub open spec fn in_order(self) -> bool {
        forall|m: int|
            0 < m && #[trigger] self.has(m) ==> match self.nodes[m].parent {
                Some(p) => self.above(p, m - 1),
                None => false,
            }
    }

    /// The children of a node cover its range: the first child starts where
    /// the node starts, each child starts where the child before it ends, and
    /// the last child ends where the node ends. A node being built that has
    /// no child yet starts where the tokens end for now.
    pub open spec fn covered(self, open: Set<int>, pos: int) -> bool {
        &&& forall|p: int| #[trigger]
            self.has(p) ==> match self.nodes[p].first_child {
                Some(c) => self.nodes[c].start == self.nodes[p].start,
                None => open.contains(p) ==> self.nodes[p].start == pos,
            }
        &&& forall|c: int| #[trigger]
            self.has(c) ==> match self.nodes[c].next_sibling {
                Some(d) => self.nodes[d].start == self.end_of(open, pos, c),
                None => match self.nodes[c].parent {
                    Some(p) => self.end_of(open, pos, c) == self.end_of(open, pos, p),
                    None => true,
                },
            }
    }

    /// An error belongs to a node that was started, not to a token: where the
    /// node has no child, it is empty.
    pub open spec fn errors_on_nodes(self, open: Set<int>, pos: int) -> bool {
        forall|i: int|
            0 <= i < self.errors.len() ==> (self.nodes[(
            #[trigger] self.errors[i]).node].first_child is None ==> self.nodes[self.errors[i].node].start
                == self.end_of(open, pos, self.errors[i].node))
    }

    /// The root covers the text as far as the tokens reach.
    pub open spec fn root_covers(self, open: Set<int>, pos: int) -> bool {
        self.nodes.len() > 0 ==> {
            &&& self.nodes[0].start == 0
            &&& self.end_of(open, pos, 0) == pos
            &&& self.nodes[0].first_child is None ==> pos == 0
        }
    }

    /// What holds of the shape of a tree at every moment of building.
    pub open spec fn shape_ok(self, open: Set<int>, pos: int) -> bool {
        &&& self.in_order()
        &&& self.covered(open, pos)
        &&& self.errors_on_nodes(open, pos)
        &&& self.root_covers(open, pos)
    }

    /// What holds of the shape of a finished tree.
    pub open spec fn shaped(self) -> bool {
        self.shape_ok(Set::empty(), self.text.len() as int)
    }
}

/// A node above another one has the smaller index.
pub proof fn lemma_above_le(f: FileView, a: int, n: int)
    requires
        f.above(a, n),
    ensures
        a <= n,
    decreases n,
{
    if a != n {
        lemma_above_le(f, a, f.nodes[n].parent->0);
    }
}

/// What is above a node is above everything below the node.
pub proof fn lemma_above_trans(f: FileView, a: int, b: int, n: int)
    requires
        f.above(a, b),
        f.above(b, n),
    ensures
        f.above(a, n),
    decreases n,
{
    if b != n {
        lemma_above_trans(f, a, b, f.nodes[n].parent->0);
    }
}

/// Whether a node is above another does not depend on the nodes that come
/// after the two, nor on anything but the parents.
pub proof fn lemma_above_same(f: FileView, g: FileView, a: int, n: int)
    requires
        n < f.nodes.len(),
        n < g.nodes.len(),
        forall|i: int| 0 <= i <= n ==> (#[trigger] g.nodes[i]).parent == f.nodes[i].parent,
    ensures
        g.above(a, n) == f.above(a, n),
    decreases n,
{
    if a != n && n > 0 {
        assert(g.nodes[n].parent == f.nodes[n].parent);
        match f.nodes[n].parent {
            Some(p) => {
                if 0 <= p < n {
                    lemma_above_same(f, g, a, p);
                }
            },
            None => {},
        }
    }
}

impl BuilderView {
    /// What holds of the shape of the tree between two calls: the shape of
    /// the nodes so far, and the innermost node being built is the last node
    /// or a node above it.
    pub open spec fn shaped(self) -> bool {
        &&& self.file.shape_ok(self.open(), self.pos)
        &&& self.stack.len() > 0 ==> self.file.above(self.stack.last().0, self.file.nodes.len() - 1)
    }
}

/// A node has at most one last child.
proof fn lemma_last_child_unique(f: FileView, x: int, y: int)
    requires
        f.next_siblings_ok(),
        f.has(x),
        f.has(y),
        f.nodes[x].parent == f.nodes[y].parent,
        f.nodes[x].next_sibling is None,
        f.nodes[y].next_sibling is None,
    ensures
        x == y,
{
}

/// A new node under the node being built keeps the shape of the tree.
#[verifier::rlimit(60)]
proof fn lemma_child_shaped(b: BuilderView, kind: crate::tree_model::SyntaxKind, len: int, leaf: bool)
    requires
        b.inv(),
        b.shaped(),
        b.stack.len() > 0,
        b.file.nodes.len() < u32::MAX,
        0 <= len,
        !leaf ==> len == 0,
    ensures
        leaf ==> b.apply(TreeEventView::Token { kind, len }).shaped(),
        !leaf ==> b.apply(TreeEventView::Start { kind }).shaped(),
{
    let a = if leaf {
        b.apply(TreeEventView::Token { kind, len })
    } else {
        b.apply(TreeEventView::Start { kind })
    };
    let c = b.file.nodes.len() as int;
    let top = b.stack.len() - 1;
    let t = b.stack[top].0;
    let last = b.stack[top].1;
    let node = fresh_node(kind, b.pos, b.pos + len, Some(t));
    assert(b.at(top));
    assert(b.file.has(t));
    assert(a.file.nodes == b.with_child(node));
    lemma_with_child_same(b, node);
    lemma_open_parent(b);
    assert(on_stack(b.stack, t)) by {
        assert(b.stack[top].0 == t);
    }
    assert forall|i: int| on_stack(a.stack, i) <==> (on_stack(b.stack, i) || (!leaf && i == c)) by {
        if on_stack(a.stack, i) {
            let j = choose|j: int| 0 <= j < a.stack.len() && (#[trigger] a.stack[j]).0 == i;
            if j <= top {
                assert(b.stack[j].0 == i);
            }
        }
        if on_stack(b.stack, i) {
            let j = choose|j: int| 0 <= j < b.stack.len() && (#[trigger] b.stack[j]).0 == i;
            assert(a.stack[j].0 == i);
        }
        if !leaf && i == c {
            assert(a.stack[top + 1].0 == c);
        }
    }
    assert(!on_stack(b.stack, c)) by {
        if on_stack(b.stack, c) {
            let j = choose|j: int| 0 <= j < b.stack.len() && (#[trigger] b.stack[j]).0 == c;
            assert(b.at(j));
        }
    }
    // every node being built but the innermost has a child: the next one being built
    assert forall|x: int| on_stack(b.stack, x) && x != t implies b.file.nodes[x].first_child
        is Some by {
        let j = choose|j: int| 0 <= j < b.stack.len() && (#[trigger] b.stack[j]).0 == x;
        assert(b.at(j));
        if j == top {
        } else {
            assert(b.at(j + 1));
            assert(b.file.has(x));
            assert(b.file.child_of(b.stack[j + 1].0, x));
        }
    }
    // the innermost node being built has a child exactly if one is listed
    assert(last is None <==> b.file.nodes[t].first_child is None) by {
        match last {
            Some(l) => {
                assert(b.file.child_of(l, t));
            },
            None => {},
        }
    }
    assert(a.file.end_of(a.open(), a.pos, c) == a.pos);
    assert forall|i: int| 0 <= i < c implies (!on_stack(b.stack, i) ==> #[trigger] a.file.end_of(
        a.open(),
        a.pos,
        i,
    ) == b.file.end_of(b.open(), b.pos, i)) && (on_stack(b.stack, i) ==> a.file.end_of(
        a.open(),
        a.pos,
        i,
    ) == a.pos && b.file.end_of(b.open(), b.pos, i) == b.pos) by {}
    assert(a.file.in_order()) by {
        assert forall|m: int| 0 < m && #[trigger] a.file.has(m) implies match a.file.nodes[m].parent {
            Some(p) => a.file.above(p, m - 1),
            None => false,
        } by {
            if m < c {
                assert(b.file.has(m));
                let p = b.file.nodes[m].parent->0;
                lemma_above_same(b.file, a.file, p, m - 1);
            } else {
                lemma_above_same(b.file, a.file, t, c - 1);
            }
        }
    }
    assert(a.file.covered(a.open(), a.pos)) by {
        assert forall|p: int| #[trigger] a.file.has(p) implies match a.file.nodes[p].first_child {
            Some(x) => a.file.nodes[x].start == a.file.nodes[p].start,
            None => a.open().contains(p) ==> a.file.nodes[p].start == a.pos,
        } by {
            if p < c {
                assert(b.file.has(p));
                if p == t && last is None {
                } else {
                    match b.file.nodes[p].first_child {
                        Some(x) => {
                            assert(b.file.has(x));
                        },
                        None => {
                            assert(!on_stack(b.stack, p));
                        },
                    }
                }
            }
        }
        assert forall|x: int| #[trigger] a.file.has(x) implies match a.file.nodes[x].next_sibling {
            Some(d) => a.file.nodes[d].start == a.file.end_of(a.open(), a.pos, x),
            None => match a.file.nodes[x].parent {
                Some(p) => a.file.end_of(a.open(), a.pos, x) == a.file.end_of(a.open(), a.pos, p),
                None => true,
            },
        } by {
            if x < c {
                assert(b.file.has(x));
                if last == Some(x) {
                    assert(!on_stack(b.stack, x));
                } else {
                    match b.file.nodes[x].next_sibling {
                        Some(d) => {
                            assert(!on_stack(b.stack, x));
                            assert(b.file.has(d));
                        },
                        None => {
                            match b.file.nodes[x].parent {
                                Some(p) => {
                                    assert(b.file.child_of(x, p));
                                    assert(b.file.has(p));
                                    if on_stack(b.stack, p) && !on_stack(b.stack, x) {
                                        // x would be the last child of a node being built
                                        let j = choose|j: int|
                                            0 <= j < b.stack.len() && (#[trigger] b.stack[j]).0 == p;
                                        assert(b.at(j));
                                        if j == top {
                                            match last {
                                                Some(l) => {
                                                    assert(b.file.has(l));
                                                    lemma_last_child_unique(b.file, x, l);
                                                },
                                                None => {},
                                            }
                                        } else {
                                            assert(b.at(j + 1));
                                            let y = b.stack[j + 1].0;
                                            assert(b.file.has(y));
                                            lemma_last_child_unique(b.file, x, y);
                                            assert(on_stack(b.stack, y)) by {
                                                assert(b.stack[j + 1].0 == y);
                                            }
                                        }
                                    }
                                },
                                None => {},
                            }
                        },
                    }
                }
            }
        }
    }
    assert(a.file.errors_on_nodes(a.open(), a.pos)) by {
        assert forall|i: int|
            0 <= i < a.file.errors.len() && a.file.nodes[(
            #[trigger] a.file.errors[i]).node].first_child
                is None implies a.file.nodes[a.file.errors[i].node].start == a.file.end_of(
            a.open(),
            a.pos,
            a.file.errors[i].node,
        ) by {
            let n = b.file.errors[i].node;
            assert(0 <= n < c);
            assert(b.file.has(n));
            if a.file.nodes[n].first_child is None {
                assert(b.file.nodes[n].first_child is None);
                assert(!on_stack(b.stack, n) || n == t);
            }
        }
    }
    if leaf {
        assert(a.stack.last().0 == t);
        assert(a.file.above(t, t));
        assert(a.file.nodes[c].parent == Some(t));
        assert(a.file.above(t, c));
    } else {
        assert(a.stack.last().0 == c);
    }
}

/// Every call that is in order keeps the shape of the tree.
#[verifier::rlimit(60)]
pub proof fn lemma_apply_shaped(b: BuilderView, event: TreeEventView)
    requires
        b.inv(),
        b.shaped(),
        b.admits(event),
    ensures
        b.apply(event).shaped(),
{
    let a = b.apply(event);
    match event {
        TreeEventView::Token { kind, len } => {
            lemma_child_shaped(b, kind, len, true);
        },
        TreeEventView::Start { kind } => {
            if b.stack.len() > 0 {
                lemma_child_shaped(b, kind, 0, false);
            } else {
                assert(a.stack[0].0 == 0);
                assert(on_stack(a.stack, 0));
                assert(b.file.errors.len() == 0) by {
                    if b.file.errors.len() > 0 {
                        assert(0 <= b.file.errors[0].node < b.file.nodes.len());
                    }
                }
            }
        },
        TreeEventView::Finish => {
            let top = b.stack.len() - 1;
            let id = b.stack[top].0;
            assert(b.at(top));
            assert(b.file.has(id));
            assert forall|i: int| on_stack(a.stack, i) <==> (on_stack(b.stack, i) && i != id) by {
                if on_stack(a.stack, i) {
                    let j = choose|j: int| 0 <= j < a.stack.len() && (#[trigger] a.stack[j]).0 == i;
                    assert(b.stack[j].0 == i);
                    lemma_stack_increasing(b, j, top);
                }
                if on_stack(b.stack, i) && i != id {
                    let j = choose|j: int| 0 <= j < b.stack.len() && (#[trigger] b.stack[j]).0 == i;
                    assert(a.stack[j].0 == i);
                }
            }
            assert(on_stack(b.stack, id)) by {
                assert(b.stack[top].0 == id);
            }
            assert forall|i: int| 0 <= i < a.file.nodes.len() implies #[trigger] a.file.end_of(
                a.open(),
                a.pos,
                i,
            ) == b.file.end_of(b.open(), b.pos, i) by {}
            assert(a.file.in_order()) by {
                assert forall|m: int| 0 < m && #[trigger] a.file.has(m) implies match a.file.nodes[m].parent {
                    Some(p) => a.file.above(p, m - 1),
                    None => false,
                } by {
                    assert(b.file.has(m));
                    let p = b.file.nodes[m].parent->0;
                    lemma_above_same(b.file, a.file, p, m - 1);
                }
            }
            assert(a.file.covered(a.open(), a.pos)) by {
                assert forall|p: int| #[trigger] a.file.has(p) implies match a.file.nodes[p].first_child {
                    Some(x) => a.file.nodes[x].start == a.file.nodes[p].start,
                    None => a.open().contains(p) ==> a.file.nodes[p].start == a.pos,
                } by {
                    assert(b.file.has(p));
                    match b.file.nodes[p].first_child {
                        Some(x) => {
                            assert(b.file.has(x));
                        },
                        None => {},
                    }
                }
                assert forall|x: int| #[trigger] a.file.has(x) implies match a.file.nodes[x].next_sibling {
                    Some(d) => a.file.nodes[d].start == a.file.end_of(a.open(), a.pos, x),
                    None => match a.file.nodes[x].parent {
                        Some(p) => a.file.end_of(a.open(), a.pos, x) == a.file.end_of(
                            a.open(),
                            a.pos,
                            p,
                        ),
                        None => true,
                    },
                } by {
                    assert(b.file.has(x));
                    match b.file.nodes[x].next_sibling {
                        Some(d) => {
                            assert(b.file.has(d));
                        },
                        None => {
                            match b.file.nodes[x].parent {
                                Some(p) => {
                                    assert(b.file.has(p));
                                },
                                None => {},
                            }
                        },
                    }
                }
            }
            assert(a.file.errors_on_nodes(a.open(), a.pos)) by {
                assert forall|i: int|
                    0 <= i < a.file.errors.len() && a.file.nodes[(
                    #[trigger] a.file.errors[i]).node].first_child
                        is None implies a.file.nodes[a.file.errors[i].node].start
                    == a.file.end_of(a.open(), a.pos, a.file.errors[i].node) by {
                    let n = b.file.errors[i].node;
                    assert(0 <= n < b.file.nodes.len());
                }
            }
            if a.stack.len() > 0 {
                assert(b.at(top - 1));
                let last_node = b.file.nodes.len() - 1;
                // the node below the finished one on the list is its parent
                lemma_above_parent(b.file, id, last_node);
                lemma_above_same(b.file, a.file, a.stack.last().0, last_node);
            }
        },
        TreeEventView::Error { message } => {
            let top = b.stack.len() - 1;
            let t = b.stack[top].0;
            assert(b.at(top));
            assert(b.file.has(t));
            assert(on_stack(b.stack, t)) by {
                assert(b.stack[top].0 == t);
            }
            lemma_upper_bound(b.file.errors, t);
            let k = upper_bound(b.file.errors, t);
            assert(a.open() == b.open());
            assert(a.file.in_order()) by {
                assert forall|m: int| 0 < m && #[trigger] a.file.has(m) implies match a.file.nodes[m].parent {
                    Some(p) => a.file.above(p, m - 1),
                    None => false,
                } by {
                    assert(b.file.has(m));
                    let p = b.file.nodes[m].parent->0;
                    lemma_above_same(b.file, a.file, p, m - 1);
                }
            }
            assert(a.file.covered(a.open(), a.pos)) by {
                assert forall|p: int| #[trigger] a.file.has(p) implies match a.file.nodes[p].first_child {
                    Some(x) => a.file.nodes[x].start == a.file.nodes[p].start,
                    None => a.open().contains(p) ==> a.file.nodes[p].start == a.pos,
                } by {
                    assert(b.file.has(p));
                }
                assert forall|x: int| #[trigger] a.file.has(x) implies match a.file.nodes[x].next_sibling {
                    Some(d) => a.file.nodes[d].start == a.file.end_of(a.open(), a.pos, x),
                    None => match a.file.nodes[x].parent {
                        Some(p) => a.file.end_of(a.open(), a.pos, x) == a.file.end_of(
                            a.open(),
                            a.pos,
                            p,
                        ),
                        None => true,
                    },
                } by {
                    assert(b.file.has(x));
                }
            }
            assert(a.file.errors_on_nodes(a.open(), a.pos)) by {
                assert forall|i: int|
                    0 <= i < a.file.errors.len() && a.file.nodes[(
                    #[trigger] a.file.errors[i]).node].first_child
                        is None implies a.file.nodes[a.file.errors[i].node].start
                    == a.file.end_of(a.open(), a.pos, a.file.errors[i].node) by {
                    if i < k {
                        assert(a.file.errors[i] == b.file.errors[i]);
                    } else if i > k {
                        assert(a.file.errors[i] == b.file.errors[i - 1]);
                    } else {
                        assert(a.file.errors[i].node == t);
                    }
                }
            }
            if a.stack.len() > 0 {
                lemma_above_same(b.file, a.file, t, b.file.nodes.len() - 1);
            }
        },
    }
}

/// What is above a node includes the parent of what is above it.
pub proof fn lemma_above_parent(f: FileView, a: int, n: int)
    requires
        f.above(a, n),
        f.nodes[a].parent is Some,
        0 <= f.nodes[a].parent->0 < a,
    ensures
        f.above(f.nodes[a].parent->0, n),
    decreases n,
{
    if a == n {
        assert(f.above(f.nodes[a].parent->0, f.nodes[a].parent->0));
    } else {
        lemma_above_parent(f, a, f.nodes[n].parent->0);
    }
}

/// A run of calls, each in order when its turn comes, keeps the shape of the
/// tree.
pub proof fn lemma_replay_shaped(b: BuilderView, events: Seq<TreeEventView>)
    requires
        b.inv(),
        b.shaped(),
        b.admits_all(events),
    ensures
        b.replay(events).shaped(),
        b.replay(events).inv(),
    decreases events.len(),
{
    if events.len() > 0 {
        lemma_replay_shaped(b, events.drop_last());
        crate::builder_model::lemma_apply_ok(b.replay(events.drop_last()), events.last());
        lemma_apply_shaped(b.replay(events.drop_last()), events.last());
    }
}

/// What a builder holds when the tree is complete has the shape of a finished
/// tree.
pub proof fn lemma_complete_shaped(b: BuilderView)
    requires
        b.inv(),
        b.shaped(),
        b.complete(),
    ensures
        b.file.shaped(),
{
    assert(b.open() =~= Set::<int>::empty()) by {
        assert forall|i: int| !b.open().contains(i) by {
            if on_stack(b.stack, i) {
                let j = choose|j: int| 0 <= j < b.stack.len() && (#[trigger] b.stack[j]).0 == i;
            }
        }
    }
}

/// In a finished tree the children of a node cover its range without a gap and
/// without overlap: the first child starts where the node starts, every child
/// starts where the child before it ends, and the last child ends where the
/// node ends. And the nodes are numbered so that a child comes after its
/// parent and before every later child of a node above.
pub proof fn lemma_children_cover(f: FileView, n: int)
    requires
        f.wf(),
        f.shaped(),
        f.has(n),
    ensures
        f.nodes[n].first_child matches Some(c) ==> f.nodes[c].start == f.nodes[n].start,
        f.nodes[n].next_sibling matches Some(d) ==> f.nodes[d].start == f.nodes[n].end,
        f.nodes[n].next_sibling is None ==> (f.nodes[n].parent matches Some(p) ==> f.nodes[n].end
            == f.nodes[p].end),
        n == 0 ==> f.nodes[n].start == 0 && f.nodes[n].end == f.text.len(),
        n > 0 ==> (f.nodes[n].parent matches Some(p) && f.above(p, n - 1)),
{
}

} // verus!
