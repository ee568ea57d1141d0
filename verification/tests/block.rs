use spandoc_core::args::Directive;
use spandoc_core::block::{fold_block, fold_stmt, wrap_stmt};
use spandoc_core::tree::{Attr, Node, NodeKind, RewriteError, Scope, SourceSpan};

fn node(kind: NodeKind, span: u64, parts: Vec<Node>) -> Node {
    let mut node = Node::new(kind, SourceSpan(span));
    for part in parts {
        node = node.with_child(part);
    }
    node
}

fn leaf(span: u64) -> Node {
    node(NodeKind::Expr, span, vec![])
}

fn point(span: u64, target: Node) -> Node {
    node(NodeKind::Await, span, vec![target])
}

fn wrap(span: u64, parts: Vec<Node>) -> Node {
    node(NodeKind::Wrap, span, parts)
}

fn block(span: u64, stmts: Vec<Node>) -> Node {
    node(NodeKind::Block, span, stmts)
}

fn doc(span: u64, text: &str) -> Attr {
    Attr::doc(SourceSpan(span), text)
}

fn create(at: u64, ident: &str, label: &str, fields: Option<&str>, found: u64) -> Node {
    node(
        NodeKind::Scope(Scope {
            name: format!("{}::comment", ident),
            label: label.to_string(),
            fields: fields.map(|f| f.to_string()),
            span: SourceSpan(found),
        }),
        at,
        vec![],
    )
}

fn enter(at: u64) -> Node {
    node(NodeKind::Enter, at, vec![])
}

fn exit(at: u64) -> Node {
    node(NodeKind::Exit, at, vec![])
}

fn release(at: u64) -> Node {
    node(NodeKind::Release, at, vec![])
}

fn count(stmts: &[Node], kind: &NodeKind) -> usize {
    stmts.iter().filter(|s| &s.kind == kind).count()
}

#[test]
fn a_scope_is_entered_around_the_annotated_statement_only() {
    let first = node(NodeKind::Binding, 10, vec![leaf(11)]);
    let second = node(NodeKind::Expr, 20, vec![leaf(21)]);
    let body = block(
        1,
        vec![first.clone().with_attr(doc(12, " SPANDOC: Setting a to 1")), second.clone()],
    );
    let want = block(
        1,
        vec![
            create(10, "spanned", "Setting a to 1", None, 12),
            enter(10),
            first,
            exit(10),
            release(10),
            second,
        ],
    );
    assert_eq!(fold_block(&body, "spanned"), Ok(want));
}

#[test]
fn an_inner_statement_gets_one_enter_and_one_exit() {
    let stmt = node(NodeKind::Expr, 10, vec![leaf(11)]);
    let annotated = stmt.clone().with_attr(doc(12, " SPANDOC: Doing X {?local}"));
    let out = fold_stmt(annotated, false, "main").unwrap();
    assert_eq!(
        out,
        vec![
            create(10, "main", "Doing X", Some("?local"), 12),
            enter(10),
            stmt,
            exit(10),
            release(10),
        ]
    );
    assert_eq!(count(&out, &NodeKind::Enter), 1);
    assert_eq!(count(&out, &NodeKind::Exit), 1);
    assert_eq!(count(&out, &NodeKind::Release), 1);
}

#[test]
fn the_last_statement_gets_one_enter_and_no_exit() {
    let stmt = node(NodeKind::Expr, 10, vec![leaf(11)]);
    let annotated = stmt.clone().with_attr(doc(12, " SPANDOC: Capturing context"));
    let out = fold_stmt(annotated, true, "get_context").unwrap();
    assert_eq!(
        out,
        vec![create(10, "get_context", "Capturing context", None, 12), enter(10), stmt]
    );
    assert_eq!(count(&out, &NodeKind::Enter), 1);
    assert_eq!(count(&out, &NodeKind::Exit), 0);
    assert_eq!(count(&out, &NodeKind::Release), 0);
}

#[test]
fn a_statement_that_suspends_once_is_wrapped_and_not_entered() {
    let annotated = node(NodeKind::Expr, 10, vec![point(11, leaf(12)), leaf(13)])
        .with_attr(doc(14, " SPANDOC: clever_girl async span"));
    let inner = node(NodeKind::Expr, 10, vec![point(11, wrap(11, vec![leaf(12)])), leaf(13)]);
    for last in [false, true] {
        let out = fold_stmt(annotated.clone(), last, "clever_girl").unwrap();
        assert_eq!(
            out,
            vec![create(10, "clever_girl", "clever_girl async span", None, 14), inner.clone()]
        );
        assert_eq!(count(&out, &NodeKind::Enter), 0);
        assert_eq!(count(&out, &NodeKind::Exit), 0);
        assert_eq!(count(&out, &NodeKind::Release), 0);
    }
}

#[test]
fn a_statement_that_suspends_twice_is_refused() {
    let annotated = node(NodeKind::Binding, 10, vec![point(11, point(12, leaf(13)))])
        .with_attr(doc(14, " SPANDOC: this is too much"));
    for last in [false, true] {
        assert_eq!(
            fold_stmt(annotated.clone(), last, "main"),
            Err(RewriteError::MultipleSuspensions(SourceSpan(10)))
        );
    }
    let body = block(1, vec![leaf(2), annotated, leaf(3)]);
    assert_eq!(fold_block(&body, "main"), Err(RewriteError::MultipleSuspensions(SourceSpan(10))));
}

#[test]
fn without_the_annotation_it_may_suspend_as_often_as_it_likes() {
    let stmt = node(NodeKind::Binding, 10, vec![point(11, point(12, leaf(13)))])
        .with_attr(doc(14, " plain words"));
    assert_eq!(fold_stmt(stmt.clone(), false, "main"), Ok(vec![stmt.clone()]));
    let body = block(1, vec![stmt]);
    assert_eq!(fold_block(&body, "main"), Ok(body.clone()));
}

#[test]
fn a_statement_without_an_annotation_stays_as_it_is() {
    let plain = node(NodeKind::Binding, 10, vec![leaf(11)]);
    assert_eq!(fold_stmt(plain.clone(), false, "main"), Ok(vec![plain.clone()]));
    assert_eq!(fold_stmt(plain.clone(), true, "main"), Ok(vec![plain]));
    let words = leaf(10).with_attr(doc(11, " so much to do, so little time"));
    assert_eq!(fold_stmt(words.clone(), false, "main"), Ok(vec![words]));
}

#[test]
fn an_item_is_never_annotated() {
    let item = node(NodeKind::Item, 10, vec![]).with_attr(doc(11, " SPANDOC: not for items"));
    assert_eq!(fold_stmt(item.clone(), false, "main"), Ok(vec![item.clone()]));
    let body = block(1, vec![item, leaf(2)]);
    assert_eq!(fold_block(&body, "main"), Ok(body.clone()));
}

#[test]
fn an_empty_block_is_left_as_it_is() {
    let empty = block(1, vec![]);
    assert_eq!(fold_block(&empty, "main"), Ok(empty.clone()));
    let arm = node(NodeKind::Expr, 2, vec![node(NodeKind::Expr, 3, vec![block(4, vec![])])]);
    let body = block(1, vec![arm]);
    assert_eq!(fold_block(&body, "_panic_match_empty_block"), Ok(body.clone()));
}

#[test]
fn only_the_annotation_is_taken_from_the_attributes() {
    let annotated = leaf(10)
        .with_attr(Attr::other(SourceSpan(11)))
        .with_attr(doc(12, " SPANDOC: here"))
        .with_attr(doc(13, " SPANDOC: and here"));
    let bare =
        leaf(10).with_attr(Attr::other(SourceSpan(11))).with_attr(doc(13, " SPANDOC: and here"));
    assert_eq!(
        fold_stmt(annotated, true, "f"),
        Ok(vec![create(10, "f", "here", None, 12), enter(10), bare])
    );
}

#[test]
fn inner_blocks_are_rewritten_too() {
    let inner_stmt = leaf(30);
    let inner = block(20, vec![inner_stmt.clone().with_attr(doc(31, " SPANDOC: inside"))]);
    let outer_stmt = node(NodeKind::Expr, 10, vec![inner]);
    let body = block(
        1,
        vec![outer_stmt
            .with_attr(doc(11, " SPANDOC: Getting context from inside a block {?local}"))],
    );
    let inner_out =
        block(20, vec![create(30, "spanned", "inside", None, 31), enter(30), inner_stmt]);
    let want = block(
        1,
        vec![
            create(10, "spanned", "Getting context from inside a block", Some("?local"), 11),
            enter(10),
            node(NodeKind::Expr, 10, vec![inner_out]),
        ],
    );
    assert_eq!(fold_block(&body, "spanned"), Ok(want));
}

#[test]
fn blocks_inside_what_is_scheduled_by_itself_are_rewritten() {
    let inner = block(
        20,
        vec![point(30, leaf(31)).with_attr(doc(32, " SPANDOC: do the thing"))],
    );
    let later = node(NodeKind::Async, 11, vec![inner]);
    let stmt = node(NodeKind::Binding, 10, vec![later])
        .with_attr(doc(12, " SPANDOC: this shouldn't fail"));
    let body = block(1, vec![stmt, leaf(2)]);
    let inner_out = block(
        20,
        vec![create(30, "main", "do the thing", None, 32), point(30, wrap(30, vec![leaf(31)]))],
    );
    let want = block(
        1,
        vec![
            create(10, "main", "this shouldn't fail", None, 12),
            enter(10),
            node(NodeKind::Binding, 10, vec![node(NodeKind::Async, 11, vec![inner_out])]),
            exit(10),
            release(10),
            leaf(2),
        ],
    );
    assert_eq!(fold_block(&body, "main"), Ok(want));
}

#[test]
fn an_outer_annotation_wraps_what_an_inner_one_wrapped() {
    let inner = block(20, vec![point(30, leaf(31)).with_attr(doc(32, " SPANDOC: inner"))]);
    let stmt = node(NodeKind::Expr, 10, vec![inner]).with_attr(doc(12, " SPANDOC: outer"));
    let body = block(1, vec![stmt]);
    let inner_out = block(
        20,
        vec![
            create(30, "f", "inner", None, 32),
            point(30, wrap(30, vec![wrap(30, vec![leaf(31)])])),
        ],
    );
    let want = block(
        1,
        vec![create(10, "f", "outer", None, 12), node(NodeKind::Expr, 10, vec![inner_out])],
    );
    assert_eq!(fold_block(&body, "f"), Ok(want));
}

#[test]
fn bad_fields_are_refused_at_the_annotation() {
    let stmt = leaf(10).with_attr(doc(12, " SPANDOC: Emit a tracing info event {(}"));
    assert_eq!(
        fold_stmt(stmt.clone(), false, "main"),
        Err(RewriteError::InvalidFields(SourceSpan(12)))
    );
    let body = block(1, vec![leaf(2), stmt]);
    assert_eq!(fold_block(&body, "main"), Err(RewriteError::InvalidFields(SourceSpan(12))));
}

#[test]
fn bad_fields_are_found_before_the_suspension_points_are_counted() {
    let stmt = node(NodeKind::Expr, 10, vec![point(11, point(12, leaf(13)))])
        .with_attr(doc(14, " SPANDOC: twice wrong {[}"));
    assert_eq!(fold_stmt(stmt, false, "main"), Err(RewriteError::InvalidFields(SourceSpan(14))));
}

#[test]
fn the_first_error_in_the_source_is_reported() {
    let bad_fields = leaf(10).with_attr(doc(11, " SPANDOC: a {)}"));
    let twice = node(NodeKind::Expr, 20, vec![point(21, leaf(22)), point(23, leaf(24))])
        .with_attr(doc(25, " SPANDOC: b"));
    let body = block(1, vec![twice.clone(), bad_fields.clone()]);
    assert_eq!(fold_block(&body, "f"), Err(RewriteError::MultipleSuspensions(SourceSpan(20))));
    let body = block(1, vec![bad_fields.clone(), twice.clone()]);
    assert_eq!(fold_block(&body, "f"), Err(RewriteError::InvalidFields(SourceSpan(11))));
    let outer = node(NodeKind::Expr, 30, vec![block(31, vec![bad_fields])])
        .with_attr(doc(32, " SPANDOC: c {]}"));
    assert_eq!(
        fold_block(&block(1, vec![outer]), "f"),
        Err(RewriteError::InvalidFields(SourceSpan(11)))
    );
}

#[test]
fn the_verdict_on_the_fields_can_be_handed_in() {
    let stmt = leaf(10).with_attr(doc(12, " SPANDOC: x {a}"));
    let directive = Directive { label: "x".to_string(), fields: Some("a".to_string()) };
    assert_eq!(
        wrap_stmt(stmt.clone(), 0, directive.clone(), true, true, "f"),
        Ok(vec![create(10, "f", "x", Some("a"), 12), enter(10), leaf(10)])
    );
    assert_eq!(
        wrap_stmt(stmt, 0, directive, false, true, "f"),
        Err(RewriteError::InvalidFields(SourceSpan(12)))
    );
}

#[test]
fn a_position_beyond_the_attributes_takes_none_away() {
    let stmt = leaf(10).with_attr(doc(12, " SPANDOC: x"));
    let directive = Directive { label: "x".to_string(), fields: None };
    assert_eq!(
        wrap_stmt(stmt.clone(), 3, directive, true, true, "f"),
        Ok(vec![create(10, "f", "x", None, 10), enter(10), stmt])
    );
}

#[test]
fn the_order_of_the_statements_is_kept() {
    let stmts: Vec<Node> = (0..6u64)
        .map(|i| {
            let stmt = node(NodeKind::Expr, 10 * i + 10, vec![leaf(10 * i + 11)]);
            if i % 2 == 0 {
                stmt.with_attr(doc(10 * i + 12, " SPANDOC: even"))
            } else {
                stmt
            }
        })
        .collect();
    let out = fold_block(&block(1, stmts), "f").unwrap();
    let kept: Vec<u64> =
        out.children.iter().filter(|s| !s.is_written()).map(|s| s.span.0).collect();
    assert_eq!(kept, vec![10, 20, 30, 40, 50, 60]);
    assert_eq!(out.children.len(), 6 + 3 * 4);
    assert!(out.children.iter().all(|s| s.attrs.is_empty()));
}

#[test]
fn other_nodes_than_blocks_keep_their_parts_as_statements_never_were() {
    let annotated = leaf(10).with_attr(doc(11, " SPANDOC: not in a block"));
    let call = node(NodeKind::Expr, 1, vec![annotated]);
    assert_eq!(fold_block(&call, "f"), Ok(call.clone()));
}

#[test]
fn rewriting_what_was_rewritten_changes_nothing_more() {
    let body = block(
        1,
        vec![
            leaf(10).with_attr(doc(11, " SPANDOC: a {x}")),
            node(NodeKind::Expr, 20, vec![point(21, leaf(22))]).with_attr(doc(23, " SPANDOC: b")),
            leaf(30).with_attr(doc(31, " SPANDOC: c")),
        ],
    );
    let once = fold_block(&body, "f").unwrap();
    assert_eq!(fold_block(&once, "f"), Ok(once.clone()));
}

#[test]
fn no_std() {
    // fn main() {}
    let empty = block(1, vec![]);
    assert_eq!(fold_block(&empty, "main"), Ok(empty.clone()));
    assert_eq!(fold_block(&empty, "_panic_no_return_type"), Ok(empty.clone()));

    // match 42 { _ => {} };
    let arm = node(NodeKind::Expr, 4, vec![block(5, vec![])]);
    let body = block(1, vec![node(NodeKind::Expr, 2, vec![leaf(3), arm])]);
    assert_eq!(fold_block(&body, "_panic_match_empty_block"), Ok(body.clone()));

    // 42
    let body = block(1, vec![leaf(2)]);
    assert_eq!(fold_block(&body, "_dont_panic_return_type_value"), Ok(body.clone()));
    assert_eq!(fold_block(&body, "_dont_panic_no_return_type_but_unit_value"), Ok(body.clone()));

    // match 42 { _ => 42, };
    let body = block(1, vec![node(NodeKind::Expr, 2, vec![leaf(3), leaf(4)])]);
    assert_eq!(fold_block(&body, "_dont_panic_match_non_empty_block"), Ok(body.clone()));

    // let fut = async { 4usize };
    let fut = node(
        NodeKind::Binding,
        10,
        vec![node(NodeKind::Async, 11, vec![block(12, vec![leaf(13)])])],
    );
    // let fut2 = async { /// SPANDOC: do the thing
    //                    fut.await };
    let waits = point(23, leaf(24)).with_attr(doc(25, " SPANDOC: do the thing"));
    let fut2 = node(
        NodeKind::Binding,
        20,
        vec![node(NodeKind::Async, 21, vec![block(22, vec![waits])])],
    );
    // let fut3 = async { 5usize };
    let fut3 = node(
        NodeKind::Binding,
        30,
        vec![node(NodeKind::Async, 31, vec![block(32, vec![leaf(33)])])],
    );
    // /// SPANDOC: this shouldn't fail
    // let _fut4 = async { let _ = fut2.await; fut3.await };
    let fut4 = node(
        NodeKind::Binding,
        40,
        vec![node(
            NodeKind::Async,
            41,
            vec![block(
                42,
                vec![node(NodeKind::Binding, 43, vec![point(44, leaf(45))]), point(46, leaf(47))],
            )],
        )],
    );
    let body = block(
        1,
        vec![
            fut.clone(),
            fut2,
            fut3.clone(),
            fut4.clone().with_attr(doc(48, " SPANDOC: this shouldn't fail")),
        ],
    );
    let inner = block(
        22,
        vec![create(23, "main", "do the thing", None, 25), point(23, wrap(23, vec![leaf(24)]))],
    );
    let want = block(
        1,
        vec![
            fut.clone(),
            node(NodeKind::Binding, 20, vec![node(NodeKind::Async, 21, vec![inner])]),
            fut3.clone(),
            create(40, "main", "this shouldn't fail", None, 48),
            enter(40),
            fut4.clone(),
        ],
    );
    assert_eq!(fold_block(&body, "main"), Ok(want));

    // let _fut5 = async {
    //     let fut = async { async { 4 } };
    //     /// SPANDOC: this should totally work!
    //     let _four = fut.await.await;
    // };
    let four = node(NodeKind::Binding, 60, vec![point(61, point(62, leaf(63)))])
        .with_attr(doc(64, " SPANDOC: this should totally work!"));
    let fut5 = node(
        NodeKind::Binding,
        50,
        vec![node(NodeKind::Async, 51, vec![block(52, vec![fut.clone(), four])])],
    );
    let mut stmts = body.children.clone();
    stmts.push(fut5);
    assert_eq!(
        fold_block(&block(1, stmts), "main"),
        Err(RewriteError::MultipleSuspensions(SourceSpan(60)))
    );
}
