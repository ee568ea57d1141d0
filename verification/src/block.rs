//! Rewriting the statements of a function body.
//!
//! Every block of the body is visited, the inner ones before the outer
//! ones. A statement without an annotation stays as it is. An annotated
//! statement loses its annotation and gets a scope, which is written in
//! front of it. What else is written depends on where the statement stands
//! and on whether it suspends:
//!
//! * it suspends once: what it waits for is wrapped, nothing else is
//!   written;
//! * it does not suspend and is the last of its block: the scope is
//!   entered before it and left to the end of the block;
//! * it does not suspend and another statement follows: the scope is
//!   entered before it, and left and given up after it;
//! * it suspends more than once: the body is refused.
//!
//! Errors are found in the order of the source: those inside a statement
//! before those of the statement itself, and those of a statement before
//! those of the statements after it.
//!
//! Whether the fields of an annotation are tokens is asked outside the
//! engine, and the answer may be stricter than the lexer of `proc-macro2`
//! alone. [`rewritten`] says what is written where that lexer alone
//! decides. [`fold_block`] gives exactly that whenever it gives a body or
//! refuses a statement for suspending too often; where it refuses fields,
//! it has reached them with everything before them accepted.

use crate::args::{Directive, DirectiveView};
use crate::attr::{annotation, extract};
use crate::awaits::{awaits_in, count_awaits, instrument, instrumented};
use crate::scope::{accepted, check_fields, scope_for, synthesize};
use crate::tree::{
    attr_views, clone_attrs, lemma_node_views, lemma_node_views_add, lemma_node_views_push,
    node_views, KindView, Node, NodeKind, RewriteError, ScopeView, SourceSpan, Tree,
};
use vstd::prelude::*;

verus! {

/// A statement that the engine writes: of the given kind, at the place of
/// the statement it is written for, with no attributes and no parts.
pub open spec fn synthetic(kind: KindView, span: SourceSpan) -> Tree {
    Tree { kind, span, attrs: Seq::empty(), children: Seq::empty() }
}

/// `stmt` without its attribute at position `i`.
pub open spec fn without_attr(stmt: Tree, i: int) -> Tree {
    if 0 <= i < stmt.attrs.len() {
        Tree {
            kind: stmt.kind,
            span: stmt.span,
            attrs: stmt.attrs.remove(i),
            children: stmt.children,
        }
    } else {
        stmt
    }
}

/// The place of the attribute of `stmt` at position `i`.
pub open spec fn attr_span(stmt: Tree, i: int) -> SourceSpan {
    if 0 <= i < stmt.attrs.len() {
        stmt.attrs[i].span
    } else {
        stmt.span
    }
}

/// What is written for the statement `stmt`, whose annotation stands at
/// position `i` among its attributes and has become `scope`. `last` says
/// whether `stmt` is the last statement of its block.
pub open spec fn emitted(stmt: Tree, i: int, scope: ScopeView, last: bool) -> Result<
    Seq<Tree>,
    RewriteError,
> {
    let bare = without_attr(stmt, i);
    let create = synthetic(KindView::Scope(scope), stmt.span);
    let enter = synthetic(KindView::Enter, stmt.span);
    let exit = synthetic(KindView::Exit, stmt.span);
    let release = synthetic(KindView::Release, stmt.span);
    if awaits_in(bare) >= 2 {
        Err(RewriteError::MultipleSuspensions(stmt.span))
    } else if awaits_in(bare) == 1 {
        Ok(seq![create, instrumented(bare)])
    } else if last {
        Ok(seq![create, enter, bare])
    } else {
        Ok(seq![create, enter, bare, exit, release])
    }
}

/// What is written for the statement `stmt` of the function `ident`, whose
/// annotation stands at position `i` among its attributes and asks for `d`.
/// `lexes` is the verdict on the fields of `d`.
pub open spec fn wrapped(
    stmt: Tree,
    i: int,
    d: DirectiveView,
    lexes: bool,
    last: bool,
    ident: Seq<char>,
) -> Result<Seq<Tree>, RewriteError> {
    match scope_for(ident, d, attr_span(stmt, i), lexes) {
        Err(e) => Err(e),
        Ok(scope) => emitted(stmt, i, scope, last),
    }
}

/// What is written for the statement `stmt` of the function `ident`: the
/// statement itself where it has no annotation.
pub open spec fn statement_out(stmt: Tree, last: bool, ident: Seq<char>) -> Result<
    Seq<Tree>,
    RewriteError,
> {
    match annotation(stmt) {
        None => Ok(seq![stmt]),
        Some((i, d)) => wrapped(stmt, i, d, accepted(d), last, ident),
    }
}

/// `t`, a part of the body of the function `ident`, rewritten.
pub open spec fn rewritten(t: Tree, ident: Seq<char>) -> Result<Tree, RewriteError>
    decreases t, 0nat,
{
    let parts = if t.kind is Block {
        block_out(t.children, t.children.len(), ident)
    } else {
        rewritten_all(t.children, t.children.len(), ident)
    };
    match parts {
        Err(e) => Err(e),
        Ok(children) => Ok(Tree { kind: t.kind, span: t.span, attrs: t.attrs, children }),
    }
}

/// The first `k` of `ts`, each rewritten.
pub open spec fn rewritten_all(ts: Seq<Tree>, k: nat, ident: Seq<char>) -> Result<
    Seq<Tree>,
    RewriteError,
>
    decreases ts, k,
{
    if k == 0 || k > ts.len() {
        Ok(Seq::empty())
    } else {
        match rewritten_all(ts, (k - 1) as nat, ident) {
            Err(e) => Err(e),
            Ok(done) => match rewritten(ts[k - 1], ident) {
                Err(e) => Err(e),
                Ok(t) => Ok(done.push(t)),
            },
        }
    }
}

/// What is written for the first `k` statements of a block whose statements
/// are `stmts`: for each in turn, what is written for it once it is
/// rewritten inside.
pub open spec fn block_out(stmts: Seq<Tree>, k: nat, ident: Seq<char>) -> Result<
    Seq<Tree>,
    RewriteError,
>
    decreases stmts, k,
{
    if k == 0 || k > stmts.len() {
        Ok(Seq::empty())
    } else {
        match block_out(stmts, (k - 1) as nat, ident) {
            Err(e) => Err(e),
            Ok(done) => match rewritten(stmts[k - 1], ident) {
                Err(e) => Err(e),
                Ok(stmt) => match statement_out(stmt, k == stmts.len(), ident) {
                    Err(e) => Err(e),
                    Ok(more) => Ok(done + more),
                },
            },
        }
    }
}

/// Whether `stmt` has an annotation with fields.
pub open spec fn has_fields(stmt: Tree) -> bool {
    annotation(stmt) matches Some((_, d)) && d.fields is Some
}

/// Whether `stmt` has an annotation with fields that stands at `at`.
pub open spec fn fields_at(stmt: Tree, at: SourceSpan) -> bool {
    annotation(stmt) matches Some((i, d)) && d.fields is Some && at == attr_span(stmt, i)
}

/// Whether no statement of any block in `t` has an annotation with fields,
/// so that rewriting `t` asks for no verdict.
pub open spec fn fieldless(t: Tree) -> bool
    decreases t,
{
    &&& t.kind is Block ==> forall|i: int|
        0 <= i < t.children.len() ==> !has_fields(#[trigger] t.children[i])
    &&& forall|i: int| 0 <= i < t.children.len() ==> fieldless(#[trigger] t.children[i])
}

/// Whether rewriting `t` comes to ask for the verdict on the fields of an
/// annotation at `at`: some statement of a block in `t` has an annotation
/// with fields there, and everything that is rewritten before that
/// statement is accepted.
pub open spec fn fields_reached(t: Tree, ident: Seq<char>, at: SourceSpan) -> bool
    decreases t, 0nat,
{
    if t.kind is Block {
        fields_reached_in_block(t.children, t.children.len(), ident, at)
    } else {
        fields_reached_among(t.children, t.children.len(), ident, at)
    }
}

/// Whether rewriting the first `k` of `ts` comes to ask for the verdict on
/// the fields of an annotation at `at`.
pub open spec fn fields_reached_among(ts: Seq<Tree>, k: nat, ident: Seq<char>, at: SourceSpan)
    -> bool
    decreases ts, k,
{
    &&& 0 < k <= ts.len()
    &&& {
        ||| fields_reached_among(ts, (k - 1) as nat, ident, at)
        ||| rewritten_all(ts, (k - 1) as nat, ident) is Ok && fields_reached(ts[k - 1], ident, at)
    }
}

/// Whether rewriting the first `k` statements of a block whose statements
/// are `stmts` comes to ask for the verdict on the fields of an annotation
/// at `at`: inside one of them, or on the annotation of one of them once it
/// is rewritten inside.
pub open spec fn fields_reached_in_block(
    stmts: Seq<Tree>,
    k: nat,
    ident: Seq<char>,
    at: SourceSpan,
) -> bool
    decreases stmts, k,
{
    &&& 0 < k <= stmts.len()
    &&& {
        ||| fields_reached_in_block(stmts, (k - 1) as nat, ident, at)
        ||| block_out(stmts, (k - 1) as nat, ident) is Ok && {
            ||| fields_reached(stmts[k - 1], ident, at)
            ||| rewritten(stmts[k - 1], ident) matches Ok(stmt) && fields_at(stmt, at)
        }
    }
}

/// `stmt` without its attribute at position `idx`.
fn strip_attr(stmt: Node, idx: usize) -> (r: Node)
    ensures
        r@ == without_attr(stmt@, idx as int),
{
    if idx >= stmt.attrs.len() {
        return stmt;
    }
    let Node { kind, span, attrs, children } = stmt;
    let mut attrs = attrs;
    let ghost before = attrs@;
    attrs.remove(idx);
    assert(attr_views(attrs@) =~= attr_views(before).remove(idx as int));
    Node { kind, span, attrs, children }
}

/// What is written for the annotated statement `stmt` of the function
/// `ident`. Its annotation stands at position `idx` among its attributes and
/// asks for `directive`; `lexes` is the verdict on the fields of
/// `directive`; `last` says whether `stmt` is the last statement of its
/// block.
pub fn wrap_stmt(
    stmt: Node,
    idx: usize,
    directive: Directive,
    lexes: bool,
    last: bool,
    ident: &str,
) -> (r: Result<Vec<Node>, RewriteError>)
    ensures
        match r {
            Ok(out) => wrapped(stmt@, idx as int, directive@, lexes, last, ident@) == Ok::<
                Seq<Tree>,
                RewriteError,
            >(node_views(out@)),
            Err(e) => wrapped(stmt@, idx as int, directive@, lexes, last, ident@) == Err::<
                Seq<Tree>,
                RewriteError,
            >(e),
        },
{
    let at = stmt.span;
    let found = if idx < stmt.attrs.len() {
        stmt.attrs[idx].span
    } else {
        at
    };
    let scope = match synthesize(ident, directive, found, lexes) {
        Ok(scope) => scope,
        Err(e) => {
            return Err(e);
        },
    };
    let bare = strip_attr(stmt, idx);
    let awaits = count_awaits(&bare);
    if awaits >= 2 {
        return Err(RewriteError::MultipleSuspensions(at));
    }
    let mut out: Vec<Node> = Vec::new();
    let create = Node::new(NodeKind::Scope(scope), at);
    proof {
        lemma_node_views_push(out@, create);
    }
    out.push(create);
    if awaits == 1 {
        let inner = instrument(&bare);
        proof {
            lemma_node_views_push(out@, inner);
        }
        out.push(inner);
        assert(node_views(out@) =~= seq![create@, inner@]);
        return Ok(out);
    }
    let enter = Node::new(NodeKind::Enter, at);
    proof {
        lemma_node_views_push(out@, enter);
        lemma_node_views_push(out@.push(enter), bare);
    }
    out.push(enter);
    out.push(bare);
    if last {
        assert(node_views(out@) =~= seq![create@, enter@, bare@]);
        return Ok(out);
    }
    let exit = Node::new(NodeKind::Exit, at);
    let release = Node::new(NodeKind::Release, at);
    proof {
        lemma_node_views_push(out@, exit);
        lemma_node_views_push(out@.push(exit), release);
    }
    out.push(exit);
    out.push(release);
    assert(node_views(out@) =~= seq![create@, enter@, bare@, exit@, release@]);
    Ok(out)
}

/// What is written for the statement `stmt` of the function `ident`. `last`
/// says whether `stmt` is the last statement of its block.
///
/// What is written is what [`statement_out`] says, and so is the refusal of
/// a statement that suspends too often. Fields are refused only on a
/// statement that has an annotation with fields, at the place of that
/// annotation.
pub fn fold_stmt(stmt: Node, last: bool, ident: &str) -> (r: Result<Vec<Node>, RewriteError>)
    ensures
        match r {
            Ok(out) => statement_out(stmt@, last, ident@) == Ok::<Seq<Tree>, RewriteError>(
                node_views(out@),
            ),
            Err(RewriteError::MultipleSuspensions(at)) => statement_out(stmt@, last, ident@)
                == Err::<Seq<Tree>, RewriteError>(RewriteError::MultipleSuspensions(at)),
            Err(RewriteError::InvalidFields(at)) => fields_at(stmt@, at),
        },
{
    match extract(&stmt) {
        None => {
            let mut out: Vec<Node> = Vec::new();
            proof {
                lemma_node_views_push(out@, stmt);
            }
            out.push(stmt);
            Ok(out)
        },
        Some((idx, directive)) => {
            let lexes = check_fields(&directive);
            wrap_stmt(stmt, idx, directive, lexes, last, ident)
        },
    }
}

/// `node`, a part of the body of the function `ident`, rewritten: every
/// block in it has its annotated statements wrapped in their scopes.
///
/// A body that comes back is the one that [`rewritten`] gives, and a
/// statement that is refused for suspending too often is the one that
/// [`rewritten`] refuses. Fields are refused only where rewriting has come
/// to them with everything before them accepted, and never in a body
/// without fields, of which the result is therefore exactly that of
/// [`rewritten`].
pub fn fold_block(node: &Node, ident: &str) -> (r: Result<Node, RewriteError>)
    ensures
        match r {
            Ok(out) => rewritten(node@, ident@) == Ok::<Tree, RewriteError>(out@),
            Err(RewriteError::MultipleSuspensions(at)) => rewritten(node@, ident@) == Err::<
                Tree,
                RewriteError,
            >(RewriteError::MultipleSuspensions(at)),
            Err(RewriteError::InvalidFields(at)) => fields_reached(node@, ident@, at),
        },
        fieldless(node@) ==> !(r matches Err(RewriteError::InvalidFields(_))),
    decreases node,
{
    let n = node.children.len();
    let block = matches!(node.kind, NodeKind::Block);
    let mut out: Vec<Node> = Vec::new();
    let mut i: usize = 0;
    proof {
        lemma_node_views(node.children@);
    }
    while i < n
        invariant
            i <= n,
            n == node.children.len(),
            block == (node@.kind is Block),
            node@.children.len() == n,
            forall|k: int| 0 <= k < n ==> #[trigger] node@.children[k] == node.children@[k]@,
            block ==> block_out(node@.children, i as nat, ident@) == Ok::<Seq<Tree>, RewriteError>(
                node_views(out@),
            ),
            !block ==> rewritten_all(node@.children, i as nat, ident@) == Ok::<
                Seq<Tree>,
                RewriteError,
            >(node_views(out@)),
        decreases n - i,
    {
        let part = match fold_block(&node.children[i], ident) {
            Ok(part) => part,
            Err(e) => {
                proof {
                    lemma_refused(node@, i as nat, e, ident@);
                }
                return Err(e);
            },
        };
        if block {
            let mut more = match fold_stmt(part, i + 1 == n, ident) {
                Ok(more) => more,
                Err(e) => {
                    proof {
                        lemma_refused(node@, i as nat, e, ident@);
                    }
                    return Err(e);
                },
            };
            proof {
                lemma_node_views_add(out@, more@);
            }
            out.append(&mut more);
        } else {
            proof {
                lemma_node_views_push(out@, part);
            }
            out.push(part);
        }
        i += 1;
    }
    Ok(
        Node {
            kind: node.kind.clone(),
            span: node.span,
            attrs: clone_attrs(&node.attrs),
            children: out,
        },
    )
}

/// What the refusal of the part of `t` at position `i` means for `t`, the
/// parts before it being accepted. A part that suspends too often makes
/// `t` be refused for it. Fields that are reached in the part, or on the
/// part as a statement of the block `t`, are reached in `t`; and `t` is
/// then not without fields.
proof fn lemma_refused(t: Tree, i: nat, e: RewriteError, ident: Seq<char>)
    requires
        i < t.children.len(),
        t.kind is Block ==> block_out(t.children, i, ident) is Ok,
        !(t.kind is Block) ==> rewritten_all(t.children, i, ident) is Ok,
        match e {
            RewriteError::MultipleSuspensions(_) => {
                ||| rewritten(t.children[i as int], ident) == Err::<Tree, RewriteError>(e)
                ||| t.kind is Block && (rewritten(t.children[i as int], ident) matches Ok(stmt)
                    && statement_out(stmt, i + 1 == t.children.len(), ident) == Err::<
                    Seq<Tree>,
                    RewriteError,
                >(e))
            },
            RewriteError::InvalidFields(at) => {
                ||| fields_reached(t.children[i as int], ident, at)
                ||| t.kind is Block && (rewritten(t.children[i as int], ident) matches Ok(stmt)
                    && fields_at(stmt, at))
            },
        },
    ensures
        match e {
            RewriteError::MultipleSuspensions(_) => rewritten(t, ident) == Err::<
                Tree,
                RewriteError,
            >(e),
            RewriteError::InvalidFields(at) => fields_reached(t, ident, at) && !fieldless(t),
        },
{
    let n = t.children.len();
    match e {
        RewriteError::MultipleSuspensions(_) => {
            if t.kind is Block {
                lemma_block_out_fails(t.children, i + 1, n, ident);
            } else {
                lemma_rewritten_all_fails(t.children, i + 1, n, ident);
            }
        },
        RewriteError::InvalidFields(at) => {
            if t.kind is Block {
                lemma_fields_reached_in_block_stays(t.children, i + 1, n, ident, at);
            } else {
                lemma_fields_reached_among_stays(t.children, i + 1, n, ident, at);
            }
            if fieldless(t) {
                lemma_fieldless(t, ident, at);
            }
        },
    }
}

/// Fields that are reached in the first statements of a block are reached
/// in more of them.
pub proof fn lemma_fields_reached_in_block_stays(
    stmts: Seq<Tree>,
    j: nat,
    k: nat,
    ident: Seq<char>,
    at: SourceSpan,
)
    requires
        j <= k <= stmts.len(),
        fields_reached_in_block(stmts, j, ident, at),
    ensures
        fields_reached_in_block(stmts, k, ident, at),
    decreases k,
{
    if j < k {
        lemma_fields_reached_in_block_stays(stmts, j, (k - 1) as nat, ident, at);
    }
}

/// Fields that are reached in the first parts of a list are reached in
/// more of them.
pub proof fn lemma_fields_reached_among_stays(
    ts: Seq<Tree>,
    j: nat,
    k: nat,
    ident: Seq<char>,
    at: SourceSpan,
)
    requires
        j <= k <= ts.len(),
        fields_reached_among(ts, j, ident, at),
    ensures
        fields_reached_among(ts, k, ident, at),
    decreases k,
{
    if j < k {
        lemma_fields_reached_among_stays(ts, j, (k - 1) as nat, ident, at);
    }
}

/// Rewriting a tree changes neither its kind nor its place nor its
/// attributes, so it has the annotation that it had.
pub proof fn lemma_rewritten_keeps_head(t: Tree, ident: Seq<char>)
    requires
        rewritten(t, ident) is Ok,
    ensures
        rewritten(t, ident)->Ok_0.kind == t.kind,
        rewritten(t, ident)->Ok_0.span == t.span,
        rewritten(t, ident)->Ok_0.attrs == t.attrs,
        annotation(rewritten(t, ident)->Ok_0) == annotation(t),
{
}

/// In a tree without fields no fields are reached.
pub proof fn lemma_fieldless(t: Tree, ident: Seq<char>, at: SourceSpan)
    requires
        fieldless(t),
    ensures
        !fields_reached(t, ident, at),
    decreases t, 0nat,
{
    if t.kind is Block {
        lemma_fieldless_block(t.children, t.children.len(), ident, at);
    } else {
        lemma_fieldless_among(t.children, t.children.len(), ident, at);
    }
}

/// Among parts without fields no fields are reached.
proof fn lemma_fieldless_among(ts: Seq<Tree>, k: nat, ident: Seq<char>, at: SourceSpan)
    requires
        k <= ts.len(),
        forall|i: int| 0 <= i < ts.len() ==> fieldless(#[trigger] ts[i]),
    ensures
        !fields_reached_among(ts, k, ident, at),
    decreases ts, k,
{
    if k > 0 {
        lemma_fieldless_among(ts, (k - 1) as nat, ident, at);
        lemma_fieldless(ts[k - 1], ident, at);
    }
}

/// In a block whose statements have no fields, inside or on themselves, no
/// fields are reached.
proof fn lemma_fieldless_block(stmts: Seq<Tree>, k: nat, ident: Seq<char>, at: SourceSpan)
    requires
        k <= stmts.len(),
        forall|i: int| 0 <= i < stmts.len() ==> fieldless(#[trigger] stmts[i]),
        forall|i: int| 0 <= i < stmts.len() ==> !has_fields(#[trigger] stmts[i]),
    ensures
        !fields_reached_in_block(stmts, k, ident, at),
    decreases stmts, k,
{
    if k > 0 {
        lemma_fieldless_block(stmts, (k - 1) as nat, ident, at);
        lemma_fieldless(stmts[k - 1], ident, at);
        if rewritten(stmts[k - 1], ident) is Ok {
            lemma_rewritten_keeps_head(stmts[k - 1], ident);
        }
    }
}

/// Once a statement is refused, the block is, with the same error.
pub proof fn lemma_block_out_fails(stmts: Seq<Tree>, j: nat, k: nat, ident: Seq<char>)
    requires
        j <= k <= stmts.len(),
        block_out(stmts, j, ident) is Err,
    ensures
        block_out(stmts, k, ident) == block_out(stmts, j, ident),
    decreases k,
{
    if j < k {
        lemma_block_out_fails(stmts, j, (k - 1) as nat, ident);
    }
}

/// Once a part is refused, the list is, with the same error.
pub proof fn lemma_rewritten_all_fails(ts: Seq<Tree>, j: nat, k: nat, ident: Seq<char>)
    requires
        j <= k <= ts.len(),
        rewritten_all(ts, j, ident) is Err,
    ensures
        rewritten_all(ts, k, ident) == rewritten_all(ts, j, ident),
    decreases k,
{
    if j < k {
        lemma_rewritten_all_fails(ts, j, (k - 1) as nat, ident);
    }
}

} // verus!
