//! Suspension points inside one statement.
//!
//! A statement that suspends cannot keep its scope entered while it waits.
//! So what each of its suspension points waits for is put inside a wrapper
//! that leaves the scope before control is given up and enters it again when
//! control is back. The suspension points of a computation that is only set
//! up inside the statement, and scheduled by itself, are not the
//! statement's: the walk does not go into it.

use crate::tree::{
    clone_attrs, lemma_node_views, lemma_node_views_push, node_views, KindView, Node, NodeKind,
    SourceSpan, Tree,
};
use vstd::prelude::*;

verus! {

/// The number of suspension points that belong to `t`.
pub open spec fn awaits_in(t: Tree) -> nat
    decreases t, 0nat,
{
    if t.kind is Async {
        0
    } else if t.kind is Await {
        awaits_among(t.children, t.children.len()) + 1
    } else {
        awaits_among(t.children, t.children.len())
    }
}

/// The number of suspension points that belong to the first `k` of `ts`.
pub open spec fn awaits_among(ts: Seq<Tree>, k: nat) -> nat
    decreases ts, k,
{
    if k == 0 || k > ts.len() {
        0
    } else {
        awaits_among(ts, (k - 1) as nat) + awaits_in(ts[k - 1])
    }
}

/// The wrapper that stands between a suspension point at `span` and what it
/// waits for.
pub open spec fn wrapper(span: SourceSpan, inner: Seq<Tree>) -> Tree {
    Tree { kind: KindView::Wrap, span, attrs: Seq::empty(), children: inner }
}

/// `t` with what each of its suspension points waits for put inside a
/// wrapper. Wrappers nest as suspension points do.
pub open spec fn instrumented(t: Tree) -> Tree
    decreases t, 0nat,
{
    if t.kind is Async {
        t
    } else {
        let inner = instrumented_all(t.children, t.children.len());
        if t.kind is Await {
            Tree {
                kind: t.kind,
                span: t.span,
                attrs: t.attrs,
                children: seq![wrapper(t.span, inner)],
            }
        } else {
            Tree { kind: t.kind, span: t.span, attrs: t.attrs, children: inner }
        }
    }
}

/// The first `k` of `ts`, each instrumented.
pub open spec fn instrumented_all(ts: Seq<Tree>, k: nat) -> Seq<Tree>
    decreases ts, k,
{
    if k == 0 || k > ts.len() {
        Seq::empty()
    } else {
        instrumented_all(ts, (k - 1) as nat).push(instrumented(ts[k - 1]))
    }
}

/// `n`, but 2 where it is more.
pub open spec fn at_most_two(n: nat) -> nat {
    if n < 2 {
        n
    } else {
        2
    }
}

/// How many suspension points belong to `node`: none, one, or two for any
/// greater number.
pub fn count_awaits(node: &Node) -> (n: usize)
    ensures
        n == at_most_two(awaits_in(node@)),
    decreases node,
{
    if matches!(node.kind, NodeKind::Async) {
        return 0;
    }
    let mut n: usize = if matches!(node.kind, NodeKind::Await) {
        1
    } else {
        0
    };
    let ghost own = n as nat;
    let mut i: usize = 0;
    proof {
        lemma_node_views(node.children@);
    }
    while i < node.children.len() && n < 2
        invariant
            i <= node.children.len(),
            node@.children.len() == node.children.len(),
            forall|k: int|
                0 <= k < node.children.len() ==> #[trigger] node@.children[k]
                    == node.children@[k]@,
            n == at_most_two(awaits_among(node@.children, i as nat) + own),
            own <= 1,
        decreases node.children.len() - i,
    {
        let more = count_awaits(&node.children[i]);
        n = if more >= 2 - n {
            2
        } else {
            n + more
        };
        i += 1;
    }
    proof {
        lemma_awaits_among_grows(node@.children, i as nat, node@.children.len());
    }
    n
}

/// Counting over more of a list never gives less.
pub proof fn lemma_awaits_among_grows(ts: Seq<Tree>, j: nat, k: nat)
    requires
        j <= k <= ts.len(),
    ensures
        awaits_among(ts, j) <= awaits_among(ts, k),
    decreases k,
{
    if j < k {
        lemma_awaits_among_grows(ts, j, (k - 1) as nat);
    }
}

/// A computation that is scheduled by itself is left as it is.
pub fn fold_expr_async(node: &Node) -> (r: Node)
    ensures
        r@ == node@,
{
    node.clone()
}

/// The suspension point `node` around `inner`, which is what it waits for,
/// already instrumented: `inner` is put inside a wrapper, and the wrapper is
/// all that the suspension point holds.
pub fn fold_expr_await(node: &Node, inner: Vec<Node>) -> (r: Node)
    ensures
        r@ == (Tree {
            kind: node@.kind,
            span: node@.span,
            attrs: node@.attrs,
            children: seq![wrapper(node@.span, node_views(inner@))],
        }),
{
    let wrap = Node { kind: NodeKind::Wrap, span: node.span, attrs: Vec::new(), children: inner };
    let mut children: Vec<Node> = Vec::new();
    proof {
        lemma_node_views_push(children@, wrap);
        assert(wrap@.attrs =~= Seq::empty());
    }
    children.push(wrap);
    let r = Node {
        kind: node.kind.clone(),
        span: node.span,
        attrs: clone_attrs(&node.attrs),
        children,
    };
    r
}

/// `node` with what each of its suspension points waits for put inside a
/// wrapper.
pub fn instrument(node: &Node) -> (r: Node)
    ensures
        r@ == instrumented(node@),
    decreases node,
{
    if matches!(node.kind, NodeKind::Async) {
        return fold_expr_async(node);
    }
    let mut inner: Vec<Node> = Vec::new();
    let mut i: usize = 0;
    proof {
        lemma_node_views(node.children@);
    }
    while i < node.children.len()
        invariant
            i <= node.children.len(),
            node@.children.len() == node.children.len(),
            forall|k: int|
                0 <= k < node.children.len() ==> #[trigger] node@.children[k]
                    == node.children@[k]@,
            node_views(inner@) == instrumented_all(node@.children, i as nat),
        decreases node.children.len() - i,
    {
        let child = instrument(&node.children[i]);
        proof {
            lemma_node_views_push(inner@, child);
        }
        inner.push(child);
        i += 1;
    }
    if matches!(node.kind, NodeKind::Await) {
        fold_expr_await(node, inner)
    } else {
        Node {
            kind: node.kind.clone(),
            span: node.span,
            attrs: clone_attrs(&node.attrs),
            children: inner,
        }
    }
}

/// A statement without suspension points of its own is left as it is.
pub proof fn lemma_instrumented_without_awaits(t: Tree)
    requires
        awaits_in(t) == 0,
    ensures
        instrumented(t) == t,
    decreases t, 0nat,
{
    if !(t.kind is Async) {
        lemma_instrumented_all_without_awaits(t.children, t.children.len());
        assert(instrumented_all(t.children, t.children.len()) =~= t.children);
    }
}

/// Statements without suspension points of their own are left as they are.
pub proof fn lemma_instrumented_all_without_awaits(ts: Seq<Tree>, k: nat)
    requires
        k <= ts.len(),
        awaits_among(ts, k) == 0,
    ensures
        instrumented_all(ts, k) == ts.take(k as int),
    decreases ts, k,
{
    if k > 0 {
        lemma_instrumented_all_without_awaits(ts, (k - 1) as nat);
        lemma_instrumented_without_awaits(ts[k - 1]);
    }
}

} // verus!
