use spandoc_core::attr::extract;
use spandoc_core::awaits::{count_awaits, instrument};
use spandoc_core::block::fold_block;
use spandoc_core::tree::{Attr, Node, NodeKind, RewriteError, SourceSpan};

fn node(kind: NodeKind, span: u64, parts: Vec<Node>) -> Node {
    let mut node = Node::new(kind, SourceSpan(span));
    for part in parts {
        node = node.with_child(part);
    }
    node
}

fn leaf(span: u64) -> Node {
    node(NodeKind::Expr, span, vec![])
}

fn point(span: u64, target: Node) -> Node {
    node(NodeKind::Await, span, vec![target])
}

fn marked(stmt: Node, span: u64, text: &str) -> Node {
    stmt.with_attr(Attr::doc(SourceSpan(span), text))
}

/// `node` without what the engine writes.
fn erase(node: &Node) -> Node {
    let mut out = Node::new(node.kind.clone(), node.span);
    out.attrs = node.attrs.clone();
    out.children = erase_all(&node.children);
    out
}

fn erase_all(nodes: &[Node]) -> Vec<Node> {
    let mut out = Vec::new();
    for node in nodes {
        if node.is_written() {
            continue;
        }
        if node.kind == NodeKind::Wrap {
            out.extend(erase_all(&node.children));
        } else {
            out.push(erase(node));
        }
    }
    out
}

/// `node` without the annotations of the statements of its blocks.
fn unmark(node: &Node) -> Node {
    let mut out = Node::new(node.kind.clone(), node.span);
    out.attrs = node.attrs.clone();
    for part in &node.children {
        let mut part = unmark(part);
        if node.kind == NodeKind::Block {
            if let Some((at, _)) = extract(&part) {
                part.attrs.remove(at);
            }
        }
        out.children.push(part);
    }
    out
}

/// `node` without the wrapper under each of its suspension points.
fn unwrap(node: &Node) -> Node {
    let mut out = Node::new(node.kind.clone(), node.span);
    out.attrs = node.attrs.clone();
    if node.kind == NodeKind::Async {
        out.children = node.children.clone();
        return out;
    }
    let wrapped = node.kind == NodeKind::Await
        && node.children.len() == 1
        && node.children[0].kind == NodeKind::Wrap;
    let parts = if wrapped { &node.children[0].children } else { &node.children };
    out.children = parts.iter().map(unwrap).collect();
    out
}

fn samples() -> Vec<Node> {
    let inner = node(
        NodeKind::Block,
        40,
        vec![
            marked(point(41, leaf(42)), 43, " SPANDOC: do the thing"),
            marked(leaf(44), 45, " SPANDOC: and then {?x, y = 2}"),
            leaf(46),
        ],
    );
    vec![
        node(NodeKind::Block, 1, vec![]),
        node(NodeKind::Block, 1, vec![leaf(2), leaf(3)]),
        node(NodeKind::Block, 1, vec![marked(leaf(2), 3, " SPANDOC: Setting a to 1"), leaf(4)]),
        node(NodeKind::Block, 1, vec![leaf(2), marked(leaf(3), 4, " SPANDOC: last")]),
        node(
            NodeKind::Block,
            1,
            vec![
                marked(node(NodeKind::Binding, 2, vec![point(3, leaf(4))]), 5, " SPANDOC: waits"),
                marked(node(NodeKind::Item, 6, vec![]), 7, " SPANDOC: an item"),
                marked(leaf(8), 9, " just words"),
            ],
        ),
        node(
            NodeKind::Block,
            1,
            vec![
                marked(
                    node(NodeKind::Binding, 2, vec![node(NodeKind::Async, 3, vec![inner.clone()])]),
                    4,
                    " SPANDOC: later",
                ),
                marked(node(NodeKind::Expr, 5, vec![inner]), 6, " SPANDOC: now"),
            ],
        ),
    ]
}

#[test]
fn rewriting_only_adds() {
    for body in samples() {
        let out = fold_block(&body, "f").unwrap();
        assert_eq!(erase(&out), erase(&unmark(&body)));
    }
}

#[test]
fn rewriting_what_has_no_annotation_changes_nothing() {
    for body in samples() {
        let plain = unmark(&body);
        assert_eq!(fold_block(&plain, "f"), Ok(plain.clone()));
    }
}

#[test]
fn instrumenting_only_adds_wrappers() {
    let stmts = [
        leaf(1),
        point(1, leaf(2)),
        point(1, point(2, leaf(3))),
        node(
            NodeKind::Expr,
            1,
            vec![point(2, leaf(3)), node(NodeKind::Async, 4, vec![point(5, leaf(6))])],
        ),
        node(NodeKind::Await, 1, vec![]),
        node(NodeKind::Await, 1, vec![leaf(2), leaf(3)]),
    ];
    for stmt in stmts {
        let out = instrument(&stmt);
        assert_eq!(unwrap(&out), stmt);
        assert_eq!(erase(&out), erase(&stmt));
        assert_eq!(count_awaits(&out), count_awaits(&stmt));
    }
}

#[test]
fn awaiting_twice_under_one_annotation_is_refused_wherever_it_stands() {
    let twice = marked(
        node(NodeKind::Binding, 30, vec![point(31, point(32, leaf(33)))]),
        34,
        " SPANDOC: this should totally work!",
    );
    let later = node(
        NodeKind::Async,
        20,
        vec![node(
            NodeKind::Block,
            21,
            vec![node(NodeKind::Binding, 22, vec![node(NodeKind::Async, 23, vec![])]), twice],
        )],
    );
    let body = node(
        NodeKind::Block,
        1,
        vec![leaf(2), node(NodeKind::Binding, 10, vec![later]), leaf(3)],
    );
    assert_eq!(fold_block(&body, "main"), Err(RewriteError::MultipleSuspensions(SourceSpan(30))));
}
