//! Reading a tree back as a log of builder calls, and why replaying that log
//! builds the tree again.

use crate::builder_model::{
    fresh_node, lemma_replay_concat, lemma_upper_bound, linked, upper_bound, BuilderView,
    TreeEventView,
};
use crate::tree_model::{ErrorView, FileView, NodeView};
use crate::tree_shape::{lemma_above_le, lemma_above_parent, lemma_above_trans};
use vstd::prelude::*;

verus! {

/// A link to a node, if the node has an index below `m`.
pub open spec fn below(link: Option<int>, m: int) -> Option<int> {
    match link {
        Some(c) => if c < m {
            Some(c)
        } else {
            None
        },
        None => None,
    }
}

/// `n` calls that finish a node.
pub open spec fn finishes(n: int) -> Seq<TreeEventView> {
    Seq::new(
        if n >= 0 {
            n as nat
        } else {
            0
        },
        |i: int| TreeEventView::Finish,
    )
}

/// The calls that attach the errors given, in order.
pub open spec fn error_calls(errors: Seq<ErrorView>) -> Seq<TreeEventView> {
    Seq::new(errors.len(), |i: int| TreeEventView::Error { message: errors[i].message })
}

impl FileView {
    /// Whether the node is read back as a token: it has no child and is not
    /// empty.
    pub open spec fn is_token(self, m: int) -> bool {
        self.nodes[m].first_child is None && self.nodes[m].start < self.nodes[m].end
    }

    /// The nodes from the root down to the node `x`.
    pub open spec fn path(self, x: int) -> Seq<int>
        decreases x,
    {
        if x <= 0 {
            seq![x]
        } else {
            match self.nodes[x].parent {
                Some(p) => if 0 <= p < x {
                    self.path(p).push(x)
                } else {
                    seq![x]
                },
                None => seq![x],
            }
        }
    }

    /// The nodes that are being built when the node `m` is started: the nodes
    /// above it. None for the root, and none when every node is done.
    pub open spec fn open_before(self, m: int) -> Seq<int> {
        if 0 < m < self.nodes.len() {
            self.path(self.nodes[m].parent->0)
        } else {
            Seq::empty()
        }
    }

    /// The nodes that are being built right after the node `m` was started.
    pub open spec fn open_after(self, m: int) -> Seq<int> {
        if self.is_token(m) {
            self.open_before(m)
        } else {
            self.open_before(m).push(m)
        }
    }

    /// The last child of `a` among the nodes below `m`, if there is one.
    pub open spec fn last_child_below(self, a: int, m: int) -> Option<int>
        decreases m,
    {
        if m <= 0 {
            None
        } else if self.nodes[m - 1].parent == Some(a) {
            Some(m - 1)
        } else {
            self.last_child_below(a, m - 1)
        }
    }

    /// The number of errors that belong to nodes below `m`.
    pub open spec fn errors_below(self, m: int) -> int {
        upper_bound(self.errors, m - 1)
    }

    /// How far the tokens reach when the node `m` is started.
    pub open spec fn pos_before(self, m: int) -> int {
        if 0 <= m < self.nodes.len() {
            self.nodes[m].start
        } else {
            self.text.len() as int
        }
    }

    /// The calls that start the node `m`: one call for a token; for any other
    /// node the call that starts it and the calls that attach its errors.
    pub open spec fn opens(self, m: int) -> Seq<TreeEventView> {
        if self.is_token(m) {
            seq![
                TreeEventView::Token {
                    kind: self.nodes[m].kind,
                    len: self.nodes[m].end - self.nodes[m].start,
                },
            ]
        } else {
            seq![TreeEventView::Start { kind: self.nodes[m].kind }] + error_calls(
                self.errors.subrange(self.errors_below(m), self.errors_below(m + 1)),
            )
        }
    }

    /// The calls that build the nodes below `m` and finish those of them that
    /// are done before `m` is started.
    pub open spec fn log_upto(self, m: int) -> Seq<TreeEventView>
        decreases m,
    {
        if m <= 0 {
            Seq::empty()
        } else {
            self.log_upto(m - 1) + self.opens(m - 1) + finishes(
                self.open_after(m - 1).len() - self.open_before(m).len(),
            )
        }
    }

    /// The tree read back as a log of builder calls.
    pub open spec fn log(self) -> Seq<TreeEventView> {
        self.log_upto(self.nodes.len() as int)
    }

    /// What the builder holds of the node `i` when the nodes below `m` are
    /// there and the nodes in `open` are being built: links to nodes that are
    /// not there yet are missing, and a node being built ends where it
    /// starts for now.
    pub open spec fn partial_node(self, i: int, m: int, open: Seq<int>) -> NodeView {
        NodeView {
            kind: self.nodes[i].kind,
            start: self.nodes[i].start,
            end: if open.contains(i) {
                self.nodes[i].start
            } else {
                self.nodes[i].end
            },
            parent: self.nodes[i].parent,
            first_child: below(self.nodes[i].first_child, m),
            next_sibling: below(self.nodes[i].next_sibling, m),
        }
    }

    /// The nodes that the builder holds when the nodes below `m` are there and
    /// the nodes in `open` are being built.
    pub open spec fn partial_nodes(self, m: int, open: Seq<int>) -> Seq<NodeView> {
        Seq::new(m as nat, |i: int| self.partial_node(i, m, open))
    }

    /// The nodes being built, each with the child it got last, when the nodes
    /// below `m` are there.
    pub open spec fn partial_stack(self, m: int, open: Seq<int>) -> Seq<(int, Option<int>)> {
        Seq::new(open.len(), |j: int| (open[j], self.last_child_below(open[j], m)))
    }

    /// What the builder holds when the nodes below `m` are there, the nodes in
    /// `open` are being built, the first `errors` errors are attached, and the
    /// tokens reach to `pos`.
    pub open spec fn partial(self, m: int, open: Seq<int>, errors: int, pos: int) -> BuilderView {
        BuilderView {
            file: FileView {
                text: self.text,
                nodes: self.partial_nodes(m, open),
                errors: self.errors.take(errors),
            },
            stack: self.partial_stack(m, open),
            pos,
        }
    }

    /// What the builder holds right before the node `m` is started.
    pub open spec fn before(self, m: int) -> BuilderView {
        self.partial(m, self.open_before(m), self.errors_below(m), self.pos_before(m))
    }
}

/// A node is above another exactly if it is on the path to it.
pub proof fn lemma_path_above(f: FileView, a: int, n: int)
    requires
        f.parents_ok(),
        f.has(n),
    ensures
        f.path(n).contains(a) <==> f.above(a, n),
        f.path(n).len() >= 1,
        f.path(n).last() == n,
        f.path(n)[0] == 0,
        forall|j: int| 0 <= j < f.path(n).len() ==> f.has(#[trigger] f.path(n)[j]),
        forall|j: int|
            0 < j < f.path(n).len() ==> f.nodes[#[trigger] f.path(n)[j]].parent == Some(
                f.path(n)[j - 1],
            ),
        forall|j: int, k: int|
            0 <= j < k < f.path(n).len() ==> #[trigger] f.path(n)[j] < #[trigger] f.path(n)[k],
    decreases n,
{
    assert(f.has(n));
    let s = f.path(n);
    if n > 0 {
        let p = f.nodes[n].parent->0;
        assert(f.has(p));
        lemma_path_above(f, a, p);
        let r = f.path(p);
        assert(s =~= r.push(n));
        if r.contains(a) {
            let j = choose|j: int| 0 <= j < r.len() && r[j] == a;
            assert(s[j] == a);
        }
        if s.contains(a) && a != n {
            let j = choose|j: int| 0 <= j < s.len() && s[j] == a;
            assert(r[j] == a);
        }
        if a == n {
            assert(s[s.len() - 1] == n);
        }
        assert forall|j: int| 0 < j < s.len() implies f.nodes[#[trigger] s[j]].parent == Some(
            s[j - 1],
        ) by {
            if j < r.len() {
                assert(s[j] == r[j]);
            }
        }
        assert forall|j: int, k: int| 0 <= j < k < s.len() implies #[trigger] s[j] < #[trigger] s[k] by {
            if k < r.len() {
                assert(r[j] < r[k]);
            } else {
                assert(r[j] <= r[r.len() - 1]) by {
                    if j < r.len() - 1 {
                        assert(r[j] < r[r.len() - 1]);
                    }
                }
            }
        }
    } else {
        assert(s =~= seq![0]);
        assert(s[0] == 0);
        if f.above(a, n) {
            assert(a == 0);
        }
    }
}

/// The path to a node starts with the path to every node above it.
pub proof fn lemma_path_prefix(f: FileView, a: int, n: int)
    requires
        f.parents_ok(),
        f.has(n),
        f.above(a, n),
    ensures
        f.path(a).len() <= f.path(n).len(),
        f.path(n).take(f.path(a).len() as int) == f.path(a),
    decreases n,
{
    assert(f.has(n));
    if a == n {
        assert(f.path(n).take(f.path(n).len() as int) =~= f.path(n));
    } else {
        let p = f.nodes[n].parent->0;
        assert(f.has(p));
        lemma_path_prefix(f, a, p);
        assert(f.path(n) =~= f.path(p).push(n));
        assert(f.path(n).take(f.path(a).len() as int) =~= f.path(p).take(f.path(a).len() as int));
    }
}

/// In a tree whose nodes are numbered in the order in which they were started,
/// the nodes below a node follow it without a gap: what is above a node is
/// above every node between the two.
pub proof fn lemma_between(f: FileView, c: int, x: int, y: int)
    requires
        f.parents_ok(),
        f.in_order(),
        f.has(y),
        c <= x <= y,
        f.above(c, y),
    ensures
        f.above(c, x),
    decreases y,
{
    if x < y {
        assert(f.has(y));
        if c == y {
        } else {
            let p = f.nodes[y].parent->0;
            // the parent of y is above y - 1, and c is above the parent
            assert(f.above(p, y - 1));
            assert(f.above(c, p));
            lemma_above_trans(f, c, p, y - 1);
            assert(f.has(y - 1));
            lemma_between(f, c, x, y - 1);
        }
    }
}

/// What the search for the last child of `a` below `m` finds.
pub proof fn lemma_last_child_below(f: FileView, a: int, m: int)
    requires
        0 <= m <= f.nodes.len(),
    ensures
        match f.last_child_below(a, m) {
            Some(l) => 0 <= l < m && f.nodes[l].parent == Some(a) && forall|x: int|
                l < x < m ==> (#[trigger] f.nodes[x]).parent != Some(a),
            None => forall|x: int| 0 <= x < m ==> (#[trigger] f.nodes[x]).parent != Some(a),
        },
    decreases m,
{
    if m > 0 && f.nodes[m - 1].parent != Some(a) {
        lemma_last_child_below(f, a, m - 1);
    }
}

/// Which links of the nodes below `m` point to the node `m`: the first child
/// link of its parent, if the parent has no child below `m`, and else the next
/// sibling link of the last child of its parent below `m`.
#[verifier::rlimit(60)]
pub proof fn lemma_links_to(f: FileView, m: int, i: int)
    requires
        f.wf(),
        0 < m < f.nodes.len(),
        0 <= i < m,
    ensures
        f.nodes[i].first_child == Some(m) <==> (f.nodes[m].parent == Some(i)
            && f.last_child_below(i, m) is None),
        f.nodes[i].next_sibling == Some(m) <==> f.last_child_below(f.nodes[m].parent->0, m)
            == Some(i),
{
    let p = f.nodes[m].parent->0;
    assert(f.has(m));
    assert(f.has(i));
    assert(f.has(p));
    lemma_last_child_below(f, i, m);
    lemma_last_child_below(f, p, m);
    if f.nodes[i].first_child == Some(m) {
        assert(f.child_of(m, i));
        match f.last_child_below(i, m) {
            Some(l) => {
                assert(f.child_of(l, i));
            },
            None => {},
        }
    }
    if f.nodes[m].parent == Some(i) && f.last_child_below(i, m) is None {
        assert(f.child_of(m, i));
        match f.nodes[i].first_child {
            Some(c) => {
                assert(f.child_of(c, i));
                if c < m {
                    assert(f.nodes[c].parent != Some(i));
                }
            },
            None => {},
        }
    }
    if f.nodes[i].next_sibling == Some(m) {
        assert(f.nodes[i].parent == Some(p));
        match f.last_child_below(p, m) {
            Some(l) => {
                if l < i {
                } else if l > i {
                    assert(f.has(l));
                }
            },
            None => {},
        }
    }
    if f.last_child_below(p, m) == Some(i) {
        match f.nodes[i].next_sibling {
            Some(d) => {
                if d < m {
                    assert(f.nodes[d].parent != Some(p));
                } else if d > m {
                    assert(f.has(m));
                }
            },
            None => {
                assert(f.has(m));
            },
        }
    }
}

/// No node below `m` is a child of a node that is not below `m`.
pub proof fn lemma_no_child_below(f: FileView, a: int, m: int)
    requires
        f.parents_ok(),
        0 <= m <= f.nodes.len(),
        a >= m - 1,
    ensures
        f.last_child_below(a, m) is None,
    decreases m,
{
    if m > 0 {
        assert(f.has(m - 1));
        lemma_no_child_below(f, a, m - 1);
    }
}

/// The nodes that the builder holds after the node `m` was put under its
/// parent: the nodes it held before, with the link that makes `m` known, and
/// `m` itself.
#[verifier::rlimit(60)]
proof fn lemma_child_nodes(f: FileView, m: int, open: Seq<int>, opened: Seq<int>)
    requires
        f.wf(),
        0 < m < f.nodes.len(),
        forall|i: int| 0 <= i < m ==> (#[trigger] opened.contains(i) <==> open.contains(i)),
    ensures
        linked(
            f.partial_nodes(m, open),
            f.nodes[m].parent->0,
            f.last_child_below(f.nodes[m].parent->0, m),
            m,
        ).push(
            fresh_node(
                f.nodes[m].kind,
                f.nodes[m].start,
                if opened.contains(m) {
                    f.nodes[m].start
                } else {
                    f.nodes[m].end
                },
                f.nodes[m].parent,
            ),
        ) == f.partial_nodes(m + 1, opened),
{
    let p = f.nodes[m].parent->0;
    let last = f.last_child_below(p, m);
    let have = f.partial_nodes(m, open);
    let node = fresh_node(
        f.nodes[m].kind,
        f.nodes[m].start,
        if opened.contains(m) {
            f.nodes[m].start
        } else {
            f.nodes[m].end
        },
        f.nodes[m].parent,
    );
    let got = linked(have, p, last, m).push(node);
    let want = f.partial_nodes(m + 1, opened);
    assert(f.has(m));
    assert(f.has(p));
    lemma_last_child_below(f, p, m);
    assert forall|i: int| 0 <= i <= m implies #[trigger] got[i] == want[i] by {
        if i < m {
            lemma_links_to(f, m, i);
            assert(opened.contains(i) <==> open.contains(i));
            assert(have[i] == f.partial_node(i, m, open));
            assert(want[i] == f.partial_node(i, m + 1, opened));
            match last {
                Some(l) => {
                    if i == l {
                        assert(got[i] == NodeView { next_sibling: Some(m), ..have[l] });
                    } else {
                        assert(got[i] == have[i]);
                    }
                },
                None => {
                    if i == p {
                        assert(got[i] == NodeView { first_child: Some(m), ..have[p] });
                    } else {
                        assert(got[i] == have[i]);
                    }
                },
            }
        } else {
            assert(got[m] == node);
            assert(want[m] == f.partial_node(m, m + 1, opened));
        }
    }
    assert(got =~= want);
}

/// The nodes being built after the node `m` was put under the innermost of
/// them: the same nodes, the innermost now listed with `m` as the child it got
/// last.
#[verifier::rlimit(60)]
proof fn lemma_child_stack(f: FileView, m: int)
    requires
        f.wf(),
        0 < m < f.nodes.len(),
    ensures
        f.open_before(m).len() > 0,
        f.open_before(m).last() == f.nodes[m].parent->0,
        f.partial_stack(m, f.open_before(m)).drop_last().push(
            (f.nodes[m].parent->0, Some(m)),
        ) == f.partial_stack(m + 1, f.open_before(m)),
        f.partial_stack(m + 1, f.open_before(m)).push((m, None::<int>)) == f.partial_stack(
            m + 1,
            f.open_before(m).push(m),
        ),
        forall|i: int| 0 <= i < m ==> (#[trigger] f.open_before(m).push(m).contains(i)
            <==> f.open_before(m).contains(i)),
        f.open_before(m).push(m).contains(m),
        !f.open_before(m).contains(m),
{
    let open = f.open_before(m);
    let p = f.nodes[m].parent->0;
    assert(f.has(m));
    assert(f.has(p));
    lemma_path_above(f, p, p);
    let top = open.len() - 1;
    assert(open[top] == p);
    lemma_no_child_below(f, m, m + 1);
    let have = f.partial_stack(m, open).drop_last().push((p, Some(m)));
    let want = f.partial_stack(m + 1, open);
    assert forall|j: int| 0 <= j < want.len() implies #[trigger] have[j] == want[j] by {
        if j < top {
            assert(open[j] < open[top]);
            assert(f.last_child_below(open[j], m + 1) == f.last_child_below(open[j], m));
        }
    }
    assert(have =~= want);
    assert(want.push((m, None::<int>)) =~= f.partial_stack(m + 1, open.push(m)));
    let opened = open.push(m);
    assert forall|i: int| 0 <= i < m implies (#[trigger] opened.contains(i) <==> open.contains(
        i,
    )) by {
        if opened.contains(i) {
            let j = choose|j: int| 0 <= j < opened.len() && opened[j] == i;
            assert(open[j] == i);
        }
        if open.contains(i) {
            let j = choose|j: int| 0 <= j < open.len() && open[j] == i;
            assert(opened[j] == i);
        }
    }
    assert(opened[opened.len() - 1] == m);
    if open.contains(m) {
        let j = choose|j: int| 0 <= j < open.len() && open[j] == m;
        if j < top {
            assert(open[j] < open[top]);
        }
    }
}

/// Starting the node `m`, where it is not read back as a token, leads from what
/// the builder holds before to what it holds with `m` being built.
#[verifier::rlimit(60)]
pub proof fn lemma_start_step(f: FileView, m: int, errors: int)
    requires
        f.wf(),
        f.shaped(),
        0 <= m < f.nodes.len(),
        !f.is_token(m),
        0 <= errors <= f.errors.len(),
    ensures
        f.partial(m, f.open_before(m), errors, f.nodes[m].start).admits(
            TreeEventView::Start { kind: f.nodes[m].kind },
        ),
        f.partial(m, f.open_before(m), errors, f.nodes[m].start).apply(
            TreeEventView::Start { kind: f.nodes[m].kind },
        ) == f.partial(m + 1, f.open_after(m), errors, f.nodes[m].start),
{
    let open = f.open_before(m);
    let b = f.partial(m, open, errors, f.nodes[m].start);
    let event = TreeEventView::Start { kind: f.nodes[m].kind };
    let a = b.apply(event);
    let e = f.partial(m + 1, f.open_after(m), errors, f.nodes[m].start);
    assert(f.has(m));
    if m == 0 {
        assert(open =~= Seq::<int>::empty());
        lemma_no_child_below(f, 0, 1);
        assert(f.open_after(0) =~= seq![0]);
        assert(seq![0int].contains(0)) by {
            assert(seq![0int][0] == 0);
        }
        assert(a.file.nodes =~= e.file.nodes);
        assert(a.stack =~= e.stack);
    } else {
        lemma_child_stack(f, m);
        lemma_child_nodes(f, m, open, open.push(m));
        assert(b.stack.last() == (f.nodes[m].parent->0, f.last_child_below(f.nodes[m].parent->0, m)));
        assert(a.file.nodes == e.file.nodes);
        assert(a.stack == e.stack);
    }
}

/// Adding the node `m`, where it is read back as a token, leads from what the
/// builder holds before to what it holds with the token in place.
#[verifier::rlimit(60)]
pub proof fn lemma_token_step(f: FileView, m: int, errors: int)
    requires
        f.wf(),
        f.shaped(),
        0 <= m < f.nodes.len(),
        f.is_token(m),
        0 <= errors <= f.errors.len(),
    ensures
        m > 0,
        f.partial(m, f.open_before(m), errors, f.nodes[m].start).admits(
            TreeEventView::Token {
                kind: f.nodes[m].kind,
                len: f.nodes[m].end - f.nodes[m].start,
            },
        ),
        f.partial(m, f.open_before(m), errors, f.nodes[m].start).apply(
            TreeEventView::Token {
                kind: f.nodes[m].kind,
                len: f.nodes[m].end - f.nodes[m].start,
            },
        ) == f.partial(m + 1, f.open_after(m), errors, f.nodes[m].end),
{
    let open = f.open_before(m);
    let b = f.partial(m, open, errors, f.nodes[m].start);
    let event = TreeEventView::Token {
        kind: f.nodes[m].kind,
        len: f.nodes[m].end - f.nodes[m].start,
    };
    let a = b.apply(event);
    let e = f.partial(m + 1, open, errors, f.nodes[m].end);
    assert(f.has(m));
    assert(f.has(0));
    assert(m > 0);
    lemma_child_stack(f, m);
    lemma_child_nodes(f, m, open, open);
    assert(b.stack.last() == (f.nodes[m].parent->0, f.last_child_below(f.nodes[m].parent->0, m)));
    assert(a.file.nodes == e.file.nodes);
    assert(a.stack == e.stack);
}

/// The errors of the node `m` stand in the file right behind the errors of the
/// nodes below it.
pub proof fn lemma_errors_below(f: FileView, m: int)
    requires
        f.wf(),
        0 <= m <= f.nodes.len(),
    ensures
        0 <= f.errors_below(m) <= f.errors.len(),
        m < f.nodes.len() ==> f.errors_below(m) <= f.errors_below(m + 1),
        m < f.nodes.len() ==> forall|i: int|
            f.errors_below(m) <= i < f.errors_below(m + 1) ==> (#[trigger] f.errors[i]).node == m,
        f.errors_below(0) == 0,
        f.errors_below(f.nodes.len() as int) == f.errors.len(),
{
    lemma_upper_bound(f.errors, m - 1);
    lemma_upper_bound(f.errors, m);
    lemma_upper_bound(f.errors, -1);
    lemma_upper_bound(f.errors, f.nodes.len() - 1);
    if f.errors_below(0) > 0 {
        assert(f.errors[0].node <= -1);
    }
    if f.errors_below(f.nodes.len() as int) < f.errors.len() {
        assert(f.errors[f.errors_below(f.nodes.len() as int)].node > f.nodes.len() - 1);
    }
    if m < f.nodes.len() {
        if f.errors_below(m) > f.errors_below(m + 1) {
            let i = f.errors_below(m + 1);
            assert(f.errors[i].node <= m - 1);
            assert(f.errors[i].node > m);
        }
    }
}

/// Attaching errors of the node `m`, from one of them up to another, while `m`
/// is the innermost node being built, leads to what the builder holds with
/// those errors attached.
#[verifier::rlimit(60)]
pub proof fn lemma_errors_step(f: FileView, m: int, open: Seq<int>, from: int, to: int, pos: int)
    requires
        f.wf(),
        0 <= m < f.nodes.len(),
        open.len() > 0,
        open.last() == m,
        f.errors_below(m) <= from <= to <= f.errors_below(m + 1),
    ensures
        f.partial(m + 1, open, from, pos).admits_all(error_calls(f.errors.subrange(from, to))),
        f.partial(m + 1, open, from, pos).replay(error_calls(f.errors.subrange(from, to)))
            == f.partial(m + 1, open, to, pos),
    decreases to - from,
{
    lemma_errors_below(f, m);
    lemma_errors_below(f, m + 1);
    let b = f.partial(m + 1, open, from, pos);
    let calls = error_calls(f.errors.subrange(from, to));
    if from == to {
        assert(calls =~= Seq::<TreeEventView>::empty());
    } else {
        let init = error_calls(f.errors.subrange(from, to - 1));
        assert(calls.drop_last() =~= init);
        let last = TreeEventView::Error { message: f.errors[to - 1].message };
        assert(calls.last() == last);
        lemma_errors_step(f, m, open, from, to - 1, pos);
        let mid = f.partial(m + 1, open, to - 1, pos);
        let have = f.errors.take(to - 1);
        assert(mid.stack.last().0 == m);
        assert(f.errors[to - 1].node == m);
        assert(upper_bound(have, m) == to - 1) by {
            if to - 1 > 0 {
                assert(have.last() == f.errors[to - 2]);
                assert(f.errors[to - 2].node <= f.errors[to - 1].node);
            }
        }
        assert(have.insert(to - 1, ErrorView { node: m, message: f.errors[to - 1].message })
            =~= f.errors.take(to));
        assert(mid.apply(last).file.errors == f.errors.take(to));
        assert(mid.apply(last) == f.partial(m + 1, open, to, pos));
    }
}

/// Finishing the innermost node being built, where it ends where the tokens
/// end, leads to what the builder holds with that node done.
pub proof fn lemma_finish_step(f: FileView, m: int, open: Seq<int>, a: int, errors: int, pos: int)
    requires
        0 <= a < m <= f.nodes.len(),
        !open.contains(a),
        f.nodes[a].end == pos,
    ensures
        f.partial(m, open.push(a), errors, pos).admits(TreeEventView::Finish),
        f.partial(m, open.push(a), errors, pos).apply(TreeEventView::Finish) == f.partial(
            m,
            open,
            errors,
            pos,
        ),
{
    let b = f.partial(m, open.push(a), errors, pos);
    let after = b.apply(TreeEventView::Finish);
    let e = f.partial(m, open, errors, pos);
    assert(b.stack.last().0 == a);
    assert forall|i: int| 0 <= i < m && i != a implies (open.push(a).contains(i) <==> open.contains(
        i,
    )) by {
        if open.push(a).contains(i) {
            let j = choose|j: int| 0 <= j < open.push(a).len() && open.push(a)[j] == i;
            assert(open[j] == i);
        }
        if open.contains(i) {
            let j = choose|j: int| 0 <= j < open.len() && open[j] == i;
            assert(open.push(a)[j] == i);
        }
    }
    assert(after.file.nodes =~= e.file.nodes);
    assert(after.stack =~= e.stack);
}

impl FileView {
    /// How far the tokens reach right after the node `m` was started.
    pub open spec fn pos_after(self, m: int) -> int {
        if self.is_token(m) {
            self.nodes[m].end
        } else {
            self.nodes[m].start
        }
    }
}

/// The nodes being built right after the node `m` was started are the nodes
/// from the root down to `m`, or down to its parent where `m` is a token.
pub proof fn lemma_open_after(f: FileView, m: int)
    requires
        f.wf(),
        f.shaped(),
        0 <= m < f.nodes.len(),
    ensures
        f.open_after(m) == if f.is_token(m) {
            f.path(f.nodes[m].parent->0)
        } else {
            f.path(m)
        },
        f.is_token(m) ==> m > 0 && f.has(f.nodes[m].parent->0),
        forall|j: int| 0 <= j < f.open_after(m).len() ==> f.above(#[trigger] f.open_after(m)[j], m),
        forall|j: int|
            0 <= j < f.open_after(m).len() ==> 0 <= #[trigger] f.open_after(m)[j] <= m,
        forall|j: int|
            0 < j < f.open_after(m).len() ==> f.nodes[#[trigger] f.open_after(m)[j]].parent == Some(
                f.open_after(m)[j - 1],
            ),
        forall|j: int, k: int|
            0 <= j < k < f.open_after(m).len() ==> #[trigger] f.open_after(m)[j]
                < #[trigger] f.open_after(m)[k],
        f.open_after(m).len() > 0 ==> f.open_after(m)[0] == 0,
{
    assert(f.has(m));
    assert(f.has(0));
    let s = f.open_after(m);
    if m == 0 {
        assert(s =~= seq![0]);
        assert(f.path(0) =~= seq![0]);
    } else {
        let p = f.nodes[m].parent->0;
        assert(f.has(p));
        if !f.is_token(m) {
            assert(s =~= f.path(m));
        }
    }
    let end = if f.is_token(m) {
        f.nodes[m].parent->0
    } else {
        m
    };
    assert(f.has(end));
    assert(f.above(end, m)) by {
        if end != m {
            assert(f.above(end, end));
        }
    }
    lemma_path_above(f, end, end);
    assert forall|j: int| 0 <= j < s.len() implies f.above(#[trigger] s[j], m) && 0 <= s[j] <= m by {
        lemma_path_above(f, s[j], end);
        assert(f.path(end).contains(s[j]));
        lemma_above_trans(f, s[j], end, m);
        lemma_above_le(f, s[j], m);
        assert(f.has(s[j]));
    }
}

/// The nodes being built when the node `m + 1` is started are among those
/// being built right after `m` was started: the innermost of them are finished
/// in between.
pub proof fn lemma_open_prefix(f: FileView, m: int)
    requires
        f.wf(),
        f.shaped(),
        0 <= m < f.nodes.len(),
    ensures
        f.open_before(m + 1).len() <= f.open_after(m).len(),
        f.open_after(m).take(f.open_before(m + 1).len() as int) == f.open_before(m + 1),
{
    lemma_open_after(f, m);
    assert(f.has(m));
    if m + 1 < f.nodes.len() {
        assert(f.has(m + 1));
        let q = f.nodes[m + 1].parent->0;
        assert(f.above(q, m));
        assert(f.has(q));
        if f.is_token(m) {
            let p = f.nodes[m].parent->0;
            assert(q != m) by {
                if q == m {
                    assert(f.child_of(m + 1, m));
                }
            }
            assert(f.above(q, p));
            lemma_path_prefix(f, q, p);
        } else {
            lemma_path_prefix(f, q, m);
        }
    } else {
        assert(f.open_before(m + 1) =~= Seq::<int>::empty());
        assert(f.open_after(m).take(0) =~= Seq::<int>::empty());
    }
}

/// A node that is finished before the node `m + 1` is started has no child
/// behind `m`.
proof fn lemma_no_later_child(f: FileView, m: int, j: int, d: int)
    requires
        f.wf(),
        f.shaped(),
        0 <= m < f.nodes.len(),
        f.open_before(m + 1).len() <= j < f.open_after(m).len(),
        m < d < f.nodes.len(),
    ensures
        f.nodes[d].parent != Some(f.open_after(m)[j]),
{
    lemma_open_after(f, m);
    lemma_open_prefix(f, m);
    let s = f.open_after(m);
    let x = s[j];
    if f.nodes[d].parent == Some(x) {
        assert(f.has(d));
        assert(f.has(m + 1));
        assert(f.above(x, d)) by {
            assert(f.above(x, x));
        }
        lemma_between(f, x, m + 1, d);
        let q = f.nodes[m + 1].parent->0;
        assert(f.has(q));
        assert(f.above(x, q));
        lemma_path_above(f, x, q);
        let before = f.open_before(m + 1);
        assert(before.contains(x));
        let k = choose|k: int| 0 <= k < before.len() && before[k] == x;
        assert(s[k] == s.take(before.len() as int)[k]);
        assert(s[k] < s[j]);
    }
}

/// A child of a node that is being built when `m` is started, if it is itself
/// among the nodes being built, is the last child of its parent among the
/// nodes up to `m`.
proof fn lemma_no_sibling_between(f: FileView, m: int, y: int, d: int)
    requires
        f.wf(),
        f.shaped(),
        0 <= m < f.nodes.len(),
        f.has(y),
        f.above(y, m),
        y < d <= m,
    ensures
        f.nodes[d].parent != f.nodes[y].parent || f.nodes[y].parent is None,
{
    assert(f.has(d));
    assert(f.has(m));
    if f.nodes[d].parent == f.nodes[y].parent && f.nodes[y].parent is Some {
        lemma_between(f, y, d, m);
        // y is above d, and is not d: so y is above the parent of d, which is
        // the parent of y
        let x = f.nodes[y].parent->0;
        assert(f.above(y, x));
        lemma_above_le(f, y, x);
    }
}

/// Every node that is finished between the start of `m` and the start of
/// `m + 1` ends where the tokens end at that moment.
#[verifier::rlimit(60)]
pub proof fn lemma_closing_ends(f: FileView, m: int, j: int)
    requires
        f.wf(),
        f.shaped(),
        0 <= m < f.nodes.len(),
        f.open_before(m + 1).len() <= j < f.open_after(m).len(),
    ensures
        f.nodes[f.open_after(m)[j]].end == f.pos_after(m),
    decreases f.open_after(m).len() - j,
{
    lemma_open_after(f, m);
    lemma_open_prefix(f, m);
    let s = f.open_after(m);
    let x = s[j];
    assert(f.has(m));
    assert(f.has(x));
    if j == s.len() - 1 {
        if f.is_token(m) {
            let p = f.nodes[m].parent->0;
            lemma_path_above(f, p, p);
            assert(x == p);
            match f.nodes[m].next_sibling {
                Some(d) => {
                    lemma_no_later_child(f, m, j, d);
                },
                None => {},
            }
        } else {
            lemma_path_above(f, m, m);
            assert(x == m);
            match f.nodes[m].first_child {
                Some(c) => {
                    lemma_no_later_child(f, m, j, c);
                    assert(f.child_of(c, m));
                },
                None => {},
            }
        }
    } else {
        let y = s[j + 1];
        lemma_closing_ends(f, m, j + 1);
        assert(f.has(y));
        assert(f.nodes[y].parent == Some(x));
        match f.nodes[y].next_sibling {
            Some(d) => {
                if d <= m {
                    lemma_no_sibling_between(f, m, y, d);
                } else {
                    lemma_no_later_child(f, m, j, d);
                }
            },
            None => {},
        }
    }
}

/// When the node `m + 1` is started, the tokens end where they ended after the
/// node `m` was started: finishing nodes does not move them.
#[verifier::rlimit(60)]
pub proof fn lemma_pos_carries(f: FileView, m: int)
    requires
        f.wf(),
        f.shaped(),
        0 <= m < f.nodes.len(),
    ensures
        f.pos_before(m + 1) == f.pos_after(m),
{
    lemma_open_after(f, m);
    lemma_open_prefix(f, m);
    let s = f.open_after(m);
    let t = f.open_before(m + 1).len() as int;
    assert(f.has(m));
    assert(f.has(0));
    if m + 1 == f.nodes.len() {
        // the root is finished last
        assert(f.open_before(m + 1) =~= Seq::<int>::empty());
        if s.len() > 0 {
            lemma_closing_ends(f, m, 0);
        } else {
            // a token at the root cannot be
            assert(f.is_token(m));
            let p = f.nodes[m].parent->0;
            lemma_path_above(f, p, p);
        }
    } else {
        assert(f.has(m + 1));
        let q = f.nodes[m + 1].parent->0;
        assert(f.has(q));
        lemma_path_above(f, q, q);
        assert(s.take(t)[t - 1] == q);
        assert(s[t - 1] == q);
        if t == s.len() {
            if f.is_token(m) {
                // the node m + 1 is the next sibling of the token m
                let p = f.nodes[m].parent->0;
                lemma_path_above(f, p, p);
                assert(q == p);
                match f.nodes[m].next_sibling {
                    Some(d) => {
                        if d > m + 1 {
                            assert(f.has(m + 1));
                        }
                    },
                    None => {},
                }
            } else {
                // the node m + 1 is the first child of m
                lemma_path_above(f, m, m);
                assert(q == m);
                assert(f.child_of(m + 1, m));
                match f.nodes[m].first_child {
                    Some(c) => {
                        assert(f.child_of(c, m));
                    },
                    None => {},
                }
            }
        } else {
            // the node m + 1 is the next sibling of the outermost node finished
            let y = s[t];
            lemma_closing_ends(f, m, t);
            assert(f.has(y));
            assert(f.nodes[y].parent == Some(q));
            match f.nodes[y].next_sibling {
                Some(d) => {
                    if d <= m {
                        lemma_no_sibling_between(f, m, y, d);
                    } else if d > m + 1 {
                        assert(f.has(m + 1));
                    }
                },
                None => {},
            }
        }
    }
}

/// Finishing the nodes from the innermost being built down to, not including,
/// the `keep`th leads to what the builder holds with those nodes done.
#[verifier::rlimit(60)]
pub proof fn lemma_finishes_step(f: FileView, m: int, keep: int, upto: int)
    requires
        f.wf(),
        f.shaped(),
        0 <= m < f.nodes.len(),
        f.open_before(m + 1).len() <= keep <= upto <= f.open_after(m).len(),
    ensures
        f.partial(
            m + 1,
            f.open_after(m).take(upto),
            f.errors_below(m + 1),
            f.pos_after(m),
        ).admits_all(finishes(upto - keep)),
        f.partial(m + 1, f.open_after(m).take(upto), f.errors_below(m + 1), f.pos_after(m)).replay(
            finishes(upto - keep),
        ) == f.partial(
            m + 1,
            f.open_after(m).take(keep),
            f.errors_below(m + 1),
            f.pos_after(m),
        ),
    decreases upto - keep,
{
    let s = f.open_after(m);
    let b = f.partial(m + 1, s.take(upto), f.errors_below(m + 1), f.pos_after(m));
    let calls = finishes(upto - keep);
    if keep == upto {
        assert(calls =~= Seq::<TreeEventView>::empty());
    } else {
        // all but the last call, then the last: it finishes the node at `keep`
        lemma_finishes_step(f, m, keep + 1, upto);
        assert(calls.drop_last() =~= finishes(upto - keep - 1));
        assert(calls.last() == TreeEventView::Finish);
        let mid = f.partial(m + 1, s.take(keep + 1), f.errors_below(m + 1), f.pos_after(m));
        lemma_open_after(f, m);
        lemma_closing_ends(f, m, keep);
        assert(s.take(keep + 1) =~= s.take(keep).push(s[keep]));
        assert(!s.take(keep).contains(s[keep])) by {
            if s.take(keep).contains(s[keep]) {
                let j = choose|j: int| 0 <= j < keep && s.take(keep)[j] == s[keep];
                assert(s[j] < s[keep]);
            }
        }
        lemma_finish_step(
            f,
            m + 1,
            s.take(keep),
            s[keep],
            f.errors_below(m + 1),
            f.pos_after(m),
        );
    }
}

/// Replaying one call is making the call.
pub proof fn lemma_replay_one(b: BuilderView, call: TreeEventView)
    ensures
        b.replay(seq![call]) == b.apply(call),
        b.admits_all(seq![call]) == b.admits(call),
{
    assert(seq![call].drop_last() =~= Seq::<TreeEventView>::empty());
    assert(seq![call].last() == call);
    assert(b.replay(Seq::<TreeEventView>::empty()) == b);
    assert(b.admits_all(Seq::<TreeEventView>::empty()));
}

/// Replaying the calls that start the nodes below `m` leads to what the builder
/// holds right before the node `m` is started.
#[verifier::rlimit(60)]
pub proof fn lemma_log_upto(f: FileView, m: int)
    requires
        f.wf(),
        f.shaped(),
        0 <= m <= f.nodes.len(),
    ensures
        BuilderView::start(f.text).admits_all(f.log_upto(m)),
        BuilderView::start(f.text).replay(f.log_upto(m)) == f.before(m),
    decreases m,
{
    let start = BuilderView::start(f.text);
    assert(f.has(0));
    if m == 0 {
        lemma_errors_below(f, 0);
        assert(f.before(0).file.nodes =~= Seq::<NodeView>::empty());
        assert(f.before(0).file.errors =~= Seq::<ErrorView>::empty());
        assert(f.before(0).stack =~= Seq::<(int, Option<int>)>::empty());
        assert(f.open_before(0) =~= Seq::<int>::empty());
    } else {
        let n = m - 1;
        lemma_log_upto(f, n);
        lemma_errors_below(f, n);
        lemma_errors_below(f, n + 1);
        assert(f.has(n));
        let before = f.before(n);
        let opens = f.opens(n);
        let opened = f.partial(n + 1, f.open_after(n), f.errors_below(n + 1), f.pos_after(n));
        // the calls that start the node
        if f.is_token(n) {
            lemma_token_step(f, n, f.errors_below(n));
            let call = opens[0];
            assert(opens =~= seq![call]);
            lemma_replay_one(before, call);
            // a token has no errors
            if f.errors_below(n) < f.errors_below(n + 1) {
                let i = f.errors_below(n);
                assert(f.errors[i].node == n);
                assert(f.nodes[f.errors[i].node].first_child is None);
            }
            assert(before.replay(opens) == opened);
            assert(before.admits_all(opens));
        } else {
            lemma_start_step(f, n, f.errors_below(n));
            let call = TreeEventView::Start { kind: f.nodes[n].kind };
            let errors = error_calls(f.errors.subrange(f.errors_below(n), f.errors_below(n + 1)));
            assert(opens == seq![call] + errors);
            let started = f.partial(n + 1, f.open_after(n), f.errors_below(n), f.nodes[n].start);
            lemma_replay_one(before, call);
            assert(before.replay(seq![call]) == started);
            assert(before.admits_all(seq![call]));
            lemma_errors_step(
                f,
                n,
                f.open_after(n),
                f.errors_below(n),
                f.errors_below(n + 1),
                f.nodes[n].start,
            );
            lemma_replay_concat(before, seq![call], errors);
        }
        // the calls that finish the nodes that are done
        lemma_open_prefix(f, n);
        let keep = f.open_before(n + 1).len() as int;
        let all = f.open_after(n).len() as int;
        lemma_finishes_step(f, n, keep, all);
        assert(f.open_after(n).take(all) =~= f.open_after(n));
        lemma_pos_carries(f, n);
        let closes = finishes(all - keep);
        assert(opened.replay(closes) == f.before(n + 1));
        lemma_replay_concat(before, opens, closes);
        lemma_replay_concat(start, f.log_upto(n), opens + closes);
        assert(f.log_upto(m) =~= f.log_upto(n) + (opens + closes));
    }
}

/// Reading a tree back and replaying the log builds the tree again: every call
/// of the log is in order when its turn comes, the tree is complete at the end
/// of the log, and the nodes and errors that the builder then holds are those
/// of the tree, with the same kinds, ranges and links.
pub proof fn lemma_round_trip(f: FileView)
    requires
        f.wf(),
        f.shaped(),
    ensures
        BuilderView::start(f.text).admits_all(f.log()),
        BuilderView::start(f.text).replay(f.log()).complete(),
        BuilderView::start(f.text).replay(f.log()).file == f,
{
    let n = f.nodes.len() as int;
    lemma_log_upto(f, n);
    lemma_errors_below(f, n);
    let b = f.before(n);
    assert(f.open_before(n) =~= Seq::<int>::empty());
    assert(b.stack =~= Seq::<(int, Option<int>)>::empty());
    assert(b.file.errors =~= f.errors);
    assert forall|i: int| 0 <= i < n implies #[trigger] b.file.nodes[i] == f.nodes[i] by {
        assert(f.has(i));
        assert(!f.open_before(n).contains(i));
        match f.nodes[i].first_child {
            Some(c) => {},
            None => {},
        }
        match f.nodes[i].next_sibling {
            Some(d) => {},
            None => {},
        }
    }
    assert(b.file.nodes =~= f.nodes);
}

} // verus!
