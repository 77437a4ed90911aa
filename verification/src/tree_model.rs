//! The syntax tree as a mathematical value: a flat sequence of nodes that refer
//! to each other by index, and what makes such a sequence a tree.

use vstd::prelude::*;
use vstd::utf8::is_char_boundary;

verus! {

/// The kind of a syntax node.
#[derive(Debug, Clone, Copy, PartialEq, Eq, Structural, PartialOrd, Ord, Hash)]
pub struct SyntaxKind(pub u32);

/// A node: its kind, its range in the text, and its neighbours in the tree,
/// each by index.
pub struct NodeView {
    pub kind: SyntaxKind,
    pub start: int,
    pub end: int,
    pub parent: Option<int>,
    pub first_child: Option<int>,
    pub next_sibling: Option<int>,
}

/// An error: the node that owns it, and its message.
pub struct ErrorView {
    pub node: int,
    pub message: Seq<char>,
}

/// A file: its text as bytes, its nodes, its errors.
pub struct FileView {
    pub text: Seq<u8>,
    pub nodes: Seq<NodeView>,
    pub errors: Seq<ErrorView>,
}

/// The errors are sorted by the index of the node that owns them.
pub open spec fn errors_sorted(errors: Seq<ErrorView>) -> bool {
    forall|i: int, j: int|
        0 <= i <= j < errors.len() ==> (#[trigger] errors[i]).node <= (#[trigger] errors[j]).node
}

impl FileView {
    /// Whether `i` is the index of a node.
    pub open spec fn has(self, i: int) -> bool {
        0 <= i < self.nodes.len()
    }

    /// Whether the node `e` is a child of the node `p`.
    pub open spec fn child_of(self, e: int, p: int) -> bool {
        self.nodes[e].parent == Some(p)
    }

    /// Where the node `i` ends, while the nodes in `open` are still being
    /// built up to `pos`.
    pub open spec fn end_of(self, open: Set<int>, pos: int, i: int) -> int {
        if open.contains(i) {
            pos
        } else {
            self.nodes[i].end
        }
    }

    /// The node 0 has no parent; every other node has a parent of smaller
    /// index.
    pub open spec fn parents_ok(self) -> bool {
        forall|i: int| #[trigger]
            self.has(i) ==> match self.nodes[i].parent {
                None => i == 0,
                Some(p) => 0 <= p < i,
            }
    }

    /// The first child of a node is its child of least index; a node without a
    /// first child has no child.
    pub open spec fn first_children_ok(self) -> bool {
        forall|p: int| #[trigger]
            self.has(p) ==> match self.nodes[p].first_child {
                Some(c) => {
                    &&& p < c < self.nodes.len()
                    &&& self.child_of(c, p)
                    &&& forall|e: int|
                        0 <= e < self.nodes.len() && #[trigger] self.child_of(e, p) ==> c <= e
                },
                None => forall|e: int|
                    0 <= e < self.nodes.len() ==> !#[trigger] self.child_of(e, p),
            }
    }

    /// The next sibling of a node is the next node of the same parent; a node
    /// without a next sibling is the last of its parent.
    pub open spec fn next_siblings_ok(self) -> bool {
        forall|c: int| #[trigger]
            self.has(c) ==> match self.nodes[c].next_sibling {
                Some(d) => {
                    &&& c < d < self.nodes.len()
                    &&& self.nodes[d].parent == self.nodes[c].parent
                    &&& forall|e: int|
                        c < e < d && #[trigger] self.has(e) ==> self.nodes[e].parent
                            != self.nodes[c].parent
                },
                None => forall|e: int|
                    c < e && #[trigger] self.has(e) ==> self.nodes[e].parent
                        != self.nodes[c].parent,
            }
    }

    /// Every range lies in the text and on character boundaries; the range of a
    /// node lies within that of its parent; a node ends before its next sibling
    /// starts.
    pub open spec fn ranges_ok(self, open: Set<int>, pos: int) -> bool {
        &&& 0 <= pos <= self.text.len()
        &&& is_char_boundary(self.text, pos)
        &&& forall|i: int| #[trigger]
            self.has(i) ==> {
                &&& 0 <= self.nodes[i].start <= self.end_of(open, pos, i) <= pos
                &&& is_char_boundary(self.text, self.nodes[i].start)
                &&& is_char_boundary(self.text, self.end_of(open, pos, i))
            }
        &&& forall|c: int, p: int|
            0 <= c < self.nodes.len() && #[trigger] self.child_of(c, p) ==> {
                &&& self.nodes[p].start <= self.nodes[c].start
                &&& self.end_of(open, pos, c) <= self.end_of(open, pos, p)
            }
        &&& forall|c: int| #[trigger]
            self.has(c) ==> match self.nodes[c].next_sibling {
                Some(d) => self.end_of(open, pos, c) <= self.nodes[d].start,
                None => true,
            }
    }

    /// Every error belongs to a node, and the errors are sorted by node.
    pub open spec fn errors_ok(self) -> bool {
        &&& errors_sorted(self.errors)
        &&& forall|i: int|
            0 <= i < self.errors.len() ==> 0 <= (#[trigger] self.errors[i]).node < self.nodes.len()
    }

    /// What holds of the nodes and errors at every moment of building.
    pub open spec fn tree_ok(self, open: Set<int>, pos: int) -> bool {
        &&& self.nodes.len() <= u32::MAX
        &&& self.errors.len() <= u32::MAX
        &&& self.text.len() <= u32::MAX
        &&& self.parents_ok()
        &&& self.first_children_ok()
        &&& self.next_siblings_ok()
        &&& self.ranges_ok(open, pos)
        &&& self.errors_ok()
    }

    /// What holds of a finished file: there is a root, and the nodes form one
    /// tree whose ranges nest.
    pub open spec fn wf(self) -> bool {
        &&& self.nodes.len() >= 1
        &&& self.tree_ok(Set::empty(), self.text.len() as int)
    }

    /// The nodes that follow `from` in its list of siblings, `from` included.
    pub open spec fn siblings_from(self, from: Option<int>) -> Seq<int>
        decreases
            match from {
                Some(c) => self.nodes.len() - c,
                None => 0,
            },
    {
        match from {
            Some(c) => if self.has(c) {
                match self.nodes[c].next_sibling {
                    Some(d) => if c < d < self.nodes.len() {
                        seq![c] + self.siblings_from(Some(d))
                    } else {
                        seq![c]
                    },
                    None => seq![c],
                }
            } else {
                Seq::empty()
            },
            None => Seq::empty(),
        }
    }

    /// The children of a node, in order.
    pub open spec fn children(self, p: int) -> Seq<int> {
        self.siblings_from(self.nodes[p].first_child)
    }

    /// The index of the first error of node `n` among the errors from `from`
    /// on, if it has one.
    pub open spec fn first_error(self, n: int, from: int) -> Option<int>
        decreases self.errors.len() - from,
    {
        if from < 0 || from >= self.errors.len() {
            None
        } else if self.errors[from].node == n {
            Some(from)
        } else {
            self.first_error(n, from + 1)
        }
    }

    /// The indices of the errors of one node that follow `from`, `from`
    /// included: the run ends where the next error belongs to another node.
    pub open spec fn run_from(self, from: Option<int>) -> Seq<int>
        decreases
            match from {
                Some(i) => self.errors.len() - i,
                None => 0,
            },
    {
        match from {
            Some(i) => if 0 <= i < self.errors.len() {
                if i + 1 < self.errors.len() && self.errors[i + 1].node == self.errors[i].node {
                    seq![i] + self.run_from(Some(i + 1))
                } else {
                    seq![i]
                }
            } else {
                Seq::empty()
            },
            None => Seq::empty(),
        }
    }

    /// The indices of the errors of a node, in order.
    pub open spec fn errors_of(self, n: int) -> Seq<int> {
        self.run_from(self.first_error(n, 0))
    }
}

/// In a finished file the range of every node lies within the range of its
/// parent, and a node ends before its next sibling starts.
pub proof fn lemma_ranges_nest(f: FileView, n: int)
    requires
        f.wf(),
        f.has(n),
    ensures
        0 <= f.nodes[n].start <= f.nodes[n].end <= f.text.len(),
        f.nodes[n].parent matches Some(p) ==> f.has(p) && f.nodes[p].start <= f.nodes[n].start
            && f.nodes[n].end <= f.nodes[p].end,
        f.nodes[n].next_sibling matches Some(d) ==> f.has(d) && f.nodes[n].end <= f.nodes[d].start
            && f.nodes[n].start <= f.nodes[d].start,
{
    assert(f.nodes[n].parent matches Some(p) ==> f.child_of(n, p));
}

/// From the node `c` on, the list of siblings holds exactly the children of
/// the parent of `c` from `c` on, in increasing order.
pub proof fn lemma_siblings_from(f: FileView, c: int, p: int)
    requires
        f.wf(),
        f.has(c),
        f.child_of(c, p),
    ensures
        forall|k: int|
            0 <= k < f.siblings_from(Some(c)).len() ==> f.has(#[trigger] f.siblings_from(Some(c))[k])
                && f.child_of(f.siblings_from(Some(c))[k], p) && c <= f.siblings_from(Some(c))[k],
        forall|k: int, l: int|
            0 <= k < l < f.siblings_from(Some(c)).len() ==> f.siblings_from(Some(c))[k]
                < f.siblings_from(Some(c))[l],
        forall|e: int|
            f.has(e) && c <= e && f.child_of(e, p) ==> f.siblings_from(Some(c)).contains(e),
    decreases f.nodes.len() - c,
{
    let s = f.siblings_from(Some(c));
    match f.nodes[c].next_sibling {
        Some(d) => {
            lemma_siblings_from(f, d, p);
            let rest = f.siblings_from(Some(d));
            assert(s =~= seq![c] + rest);
            assert forall|k: int| 0 <= k < s.len() implies f.has(#[trigger] s[k]) && f.child_of(
                s[k],
                p,
            ) && c <= s[k] by {
                if k > 0 {
                    assert(s[k] == rest[k - 1]);
                }
            }
            assert forall|k: int, l: int| 0 <= k < l < s.len() implies s[k] < s[l] by {
                assert(s[l] == rest[l - 1]);
                if k > 0 {
                    assert(s[k] == rest[k - 1]);
                } else {
                    assert(d <= rest[l - 1]);
                }
            }
            assert forall|e: int| f.has(e) && c <= e && f.child_of(e, p) implies s.contains(e) by {
                if e == c {
                    assert(s[0] == c);
                } else {
                    if e < d {
                        assert(f.nodes[e].parent != f.nodes[c].parent);
                    }
                    assert(rest.contains(e));
                    let k = choose|k: int| 0 <= k < rest.len() && rest[k] == e;
                    assert(s[k + 1] == e);
                }
            }
        },
        None => {
            assert(s =~= seq![c]);
            assert forall|e: int| f.has(e) && c <= e && f.child_of(e, p) implies s.contains(e) by {
                if e != c {
                    assert(f.nodes[e].parent != f.nodes[c].parent);
                }
                assert(s[0] == c);
            }
        },
    }
}

/// Walking the children of a node yields each child exactly once: the list
/// holds every node whose parent is `p`, holds no other node, and names no
/// node twice; it is in increasing order of index, which is the order of the
/// ranges.
pub proof fn lemma_children_once(f: FileView, p: int)
    requires
        f.wf(),
        f.has(p),
    ensures
        forall|e: int| f.has(e) && f.child_of(e, p) <==> f.children(p).contains(e),
        f.children(p).no_duplicates(),
        forall|k: int, l: int|
            0 <= k < l < f.children(p).len() ==> f.children(p)[k] < f.children(p)[l]
                && f.nodes[f.children(p)[k]].end <= f.nodes[f.children(p)[l]].start,
{
    let s = f.children(p);
    match f.nodes[p].first_child {
        Some(c) => {
            lemma_siblings_from(f, c, p);
            assert forall|e: int| f.has(e) && f.child_of(e, p) <==> s.contains(e) by {
                if s.contains(e) {
                    let k = choose|k: int| 0 <= k < s.len() && s[k] == e;
                    assert(f.has(s[k]));
                }
            }
            assert forall|k: int, l: int| 0 <= k < l < s.len() implies s[k] < s[l]
                && f.nodes[s[k]].end <= f.nodes[s[l]].start by {
                lemma_sibling_ranges(f, c, p, k, l);
            }
        },
        None => {
            assert(s =~= Seq::<int>::empty());
        },
    }
}

/// Of two nodes of one list of siblings, the earlier ends before the later
/// starts.
proof fn lemma_sibling_ranges(f: FileView, c: int, p: int, k: int, l: int)
    requires
        f.wf(),
        f.has(c),
        f.child_of(c, p),
        0 <= k < l < f.siblings_from(Some(c)).len(),
    ensures
        f.siblings_from(Some(c))[k] < f.siblings_from(Some(c))[l],
        f.nodes[f.siblings_from(Some(c))[k]].end <= f.nodes[f.siblings_from(Some(c))[l]].start,
    decreases f.nodes.len() - c,
{
    let s = f.siblings_from(Some(c));
    lemma_siblings_from(f, c, p);
    match f.nodes[c].next_sibling {
        Some(d) => {
            let rest = f.siblings_from(Some(d));
            lemma_siblings_from(f, d, p);
            assert(s =~= seq![c] + rest);
            assert(s[l] == rest[l - 1]);
            if k > 0 {
                assert(s[k] == rest[k - 1]);
                lemma_sibling_ranges(f, d, p, k - 1, l - 1);
            } else {
                // c ends before d starts, and d starts no later than any node after it
                assert(rest[0] == d);
                if l - 1 > 0 {
                    lemma_sibling_ranges(f, d, p, 0, l - 1);
                    lemma_ranges_nest(f, d);
                }
                lemma_ranges_nest(f, c);
            }
        },
        None => {
            assert(s =~= seq![c]);
        },
    }
}

/// The errors of a node form one contiguous run: between two errors of the
/// node there is no error of another node.
pub proof fn lemma_errors_contiguous(f: FileView, n: int, i: int, k: int, j: int)
    requires
        f.wf(),
        0 <= i <= k <= j < f.errors.len(),
        f.errors[i].node == n,
        f.errors[j].node == n,
    ensures
        f.errors[k].node == n,
{
}

/// The search for the first error of a node from `from` on finds the least
/// index at or behind `from` whose error belongs to the node.
pub proof fn lemma_first_error(f: FileView, n: int, from: int)
    requires
        0 <= from <= f.errors.len(),
    ensures
        match f.first_error(n, from) {
            Some(i) => from <= i < f.errors.len() && f.errors[i].node == n && forall|k: int|
                from <= k < i ==> (#[trigger] f.errors[k]).node != n,
            None => forall|k: int|
                from <= k < f.errors.len() ==> (#[trigger] f.errors[k]).node != n,
        },
    decreases f.errors.len() - from,
{
    if from < f.errors.len() && f.errors[from].node != n {
        lemma_first_error(f, n, from + 1);
    }
}

/// The run of errors from `i` on holds `i` and the indices that follow it for
/// as long as the errors belong to the node of the error `i`.
pub proof fn lemma_run_from(f: FileView, i: int)
    requires
        0 <= i < f.errors.len(),
    ensures
        f.run_from(Some(i)).len() >= 1,
        i + f.run_from(Some(i)).len() <= f.errors.len(),
        forall|k: int|
            0 <= k < f.run_from(Some(i)).len() ==> #[trigger] f.run_from(Some(i))[k] == i + k
                && f.errors[i + k].node == f.errors[i].node,
        i + f.run_from(Some(i)).len() < f.errors.len() ==> f.errors[i + f.run_from(
            Some(i),
        ).len()].node != f.errors[i].node,
    decreases f.errors.len() - i,
{
    let run = f.run_from(Some(i));
    if i + 1 < f.errors.len() && f.errors[i + 1].node == f.errors[i].node {
        lemma_run_from(f, i + 1);
        let rest = f.run_from(Some(i + 1));
        assert(run =~= seq![i] + rest);
        assert forall|k: int| 0 <= k < run.len() implies #[trigger] run[k] == i + k && f.errors[i
            + k].node == f.errors[i].node by {
            if k > 0 {
                assert(run[k] == rest[k - 1]);
            }
        }
    } else {
        assert(run =~= seq![i]);
    }
}

/// Walking the errors of a node yields every error of the node exactly once,
/// in the order in which they stand in the file, and no other error.
pub proof fn lemma_errors_of(f: FileView, n: int)
    requires
        f.wf(),
    ensures
        forall|i: int|
            0 <= i < f.errors.len() && f.errors[i].node == n <==> f.errors_of(n).contains(i),
        forall|k: int, l: int|
            0 <= k < l < f.errors_of(n).len() ==> f.errors_of(n)[k] < f.errors_of(n)[l],
{
    let run = f.errors_of(n);
    lemma_first_error(f, n, 0);
    match f.first_error(n, 0) {
        Some(first) => {
            lemma_run_from(f, first);
            let end = first + run.len();
            assert forall|i: int| 0 <= i < f.errors.len() && f.errors[i].node == n implies run.contains(
                i,
            ) by {
                assert(first <= i);
                if i >= end {
                    // sorted: the error at the end of the run lies between two errors of the node
                    assert(f.errors[first].node <= f.errors[end].node);
                    assert(f.errors[end].node <= f.errors[i].node);
                }
                assert(run[i - first] == i);
            }
            assert forall|i: int| run.contains(i) implies 0 <= i < f.errors.len()
                && f.errors[i].node == n by {
                let k = choose|k: int| 0 <= k < run.len() && run[k] == i;
                assert(run[k] == first + k);
            }
            assert forall|k: int, l: int| 0 <= k < l < run.len() implies run[k] < run[l] by {
                assert(run[k] == first + k);
                assert(run[l] == first + l);
            }
        },
        None => {
            assert(run =~= Seq::<int>::empty());
        },
    }
}

} // verus!
