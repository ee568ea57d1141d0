//! What rewriting keeps and what it adds, proved of every tree.
//!
//! The laws speak of [`rewritten`] and [`statement_out`], which say what is
//! written where the lexer of `proc-macro2` alone decides on fields. That
//! is what [`crate::block::fold_block`] gives whenever it gives a body.

use crate::args::DirectiveView;
use crate::attr::{annotation, lemma_first_doc_from};
use crate::awaits::{awaits_among, awaits_in, instrumented, instrumented_all, wrapper};
use crate::block::{
    block_out, fieldless, fields_reached, fields_reached_among, fields_reached_in_block,
    lemma_block_out_fails, lemma_rewritten_keeps_head, rewritten, rewritten_all, statement_out,
    synthetic, without_attr,
};
use crate::scope::{accepted, name_suffix};
use crate::tree::{written, KindView, RewriteError, ScopeView, SourceSpan, Tree};
use vstd::prelude::*;

verus! {

/// Whether no statement of any block in `t` has an annotation.
pub open spec fn plain(t: Tree) -> bool
    decreases t,
{
    &&& t.kind is Block ==> forall|i: int|
        0 <= i < t.children.len() ==> annotation(#[trigger] t.children[i]) is None
    &&& forall|i: int| 0 <= i < t.children.len() ==> plain(#[trigger] t.children[i])
}

/// A statement without an annotation is written as it is, and nothing is
/// written with it.
pub proof fn lemma_statement_without_annotation(stmt: Tree, last: bool, ident: Seq<char>)
    requires
        annotation(stmt) is None,
    ensures
        statement_out(stmt, last, ident) == Ok::<Seq<Tree>, RewriteError>(seq![stmt]),
{
}

/// A tree in which no statement has an annotation is rewritten to itself.
pub proof fn lemma_plain_unchanged(t: Tree, ident: Seq<char>)
    requires
        plain(t),
    ensures
        rewritten(t, ident) == Ok::<Tree, RewriteError>(t),
    decreases t, 0nat,
{
    if t.kind is Block {
        lemma_plain_block_unchanged(t.children, t.children.len(), ident);
    } else {
        lemma_plain_all_unchanged(t.children, t.children.len(), ident);
    }
    assert(t.children.take(t.children.len() as int) =~= t.children);
}

/// Parts in which no statement has an annotation are rewritten to
/// themselves.
pub proof fn lemma_plain_all_unchanged(ts: Seq<Tree>, k: nat, ident: Seq<char>)
    requires
        k <= ts.len(),
        forall|i: int| 0 <= i < ts.len() ==> plain(#[trigger] ts[i]),
    ensures
        rewritten_all(ts, k, ident) == Ok::<Seq<Tree>, RewriteError>(ts.take(k as int)),
    decreases ts, k,
{
    if k > 0 {
        lemma_plain_all_unchanged(ts, (k - 1) as nat, ident);
        lemma_plain_unchanged(ts[k - 1], ident);
        assert(ts.take(k - 1).push(ts[k - 1]) =~= ts.take(k as int));
    } else {
        assert(ts.take(0) =~= Seq::<Tree>::empty());
    }
}

/// The statements of a block in which no statement has an annotation are
/// written as they are.
pub proof fn lemma_plain_block_unchanged(stmts: Seq<Tree>, k: nat, ident: Seq<char>)
    requires
        k <= stmts.len(),
        forall|i: int| 0 <= i < stmts.len() ==> plain(#[trigger] stmts[i]),
        forall|i: int| 0 <= i < stmts.len() ==> annotation(#[trigger] stmts[i]) is None,
    ensures
        block_out(stmts, k, ident) == Ok::<Seq<Tree>, RewriteError>(stmts.take(k as int)),
    decreases stmts, k,
{
    if k > 0 {
        lemma_plain_block_unchanged(stmts, (k - 1) as nat, ident);
        lemma_plain_unchanged(stmts[k - 1], ident);
        assert(stmts.take(k - 1) + seq![stmts[k - 1]] =~= stmts.take(k as int));
    } else {
        assert(stmts.take(0) =~= Seq::<Tree>::empty());
    }
}

/// A tree in which no statement has an annotation has no fields, so that
/// rewriting it asks for no verdict.
pub proof fn lemma_plain_fieldless(t: Tree)
    requires
        plain(t),
    ensures
        fieldless(t),
    decreases t,
{
    assert forall|i: int| 0 <= i < t.children.len() implies fieldless(
        #[trigger] t.children[i],
    ) by {
        lemma_plain_fieldless(t.children[i]);
    }
}

/// A block without statements is rewritten to itself.
pub proof fn lemma_empty_block(t: Tree, ident: Seq<char>)
    requires
        t.children.len() == 0,
    ensures
        rewritten(t, ident) == Ok::<Tree, RewriteError>(t),
{
    assert(t.children =~= Seq::<Tree>::empty());
}

/// An annotated statement is none that the engine writes.
pub proof fn lemma_annotated_not_written(stmt: Tree)
    requires
        annotation(stmt) is Some,
    ensures
        !written(stmt),
        !(stmt.kind is Wrap),
        !(stmt.kind is Block),
{
}

/// The annotation of a statement stands among its attributes.
pub proof fn lemma_annotation_in_range(stmt: Tree, i: int, d: DirectiveView)
    requires
        annotation(stmt) == Some((i, d)),
    ensures
        0 <= i < stmt.attrs.len(),
        stmt.attrs[i].doc,
        forall|j: int| 0 <= j < i ==> !(#[trigger] stmt.attrs[j]).doc,
{
    lemma_first_doc_from(stmt.attrs, 0);
}

/// The statement that creates the scope of the statement `stmt` of the
/// function `ident`, whose annotation stands at position `i` among its
/// attributes and asks for `d`: it stands at the place of `stmt`, and the
/// scope is named after the function, carries the label and the fields
/// of `d`, and remembers the place of the annotation.
pub open spec fn creation(stmt: Tree, i: int, d: DirectiveView, ident: Seq<char>) -> Tree {
    synthetic(
        KindView::Scope(
            ScopeView {
                name: ident + name_suffix(),
                label: d.label,
                fields: d.fields,
                span: stmt.attrs[i].span,
            },
        ),
        stmt.span,
    )
}

/// An annotated statement that does not suspend and is not the last of its
/// block: the scope is created and entered in front of it, and left and
/// given up behind it, each once and in this order. The statement itself
/// only loses its annotation.
pub proof fn lemma_inner_statement(stmt: Tree, i: int, d: DirectiveView, ident: Seq<char>)
    requires
        annotation(stmt) == Some((i, d)),
        accepted(d),
        awaits_in(without_attr(stmt, i)) == 0,
    ensures
        statement_out(stmt, false, ident) matches Ok(out) && {
            &&& out.len() == 5
            &&& out[0] == creation(stmt, i, d, ident)
            &&& out[1] == synthetic(KindView::Enter, stmt.span)
            &&& out[2] == without_attr(stmt, i)
            &&& out[3] == synthetic(KindView::Exit, stmt.span)
            &&& out[4] == synthetic(KindView::Release, stmt.span)
            &&& forall|j: int| 0 <= j < 5 ==> ((#[trigger] out[j]).kind is Enter <==> j == 1)
            &&& forall|j: int| 0 <= j < 5 ==> ((#[trigger] out[j]).kind is Exit <==> j == 3)
            &&& forall|j: int| 0 <= j < 5 ==> ((#[trigger] out[j]).kind is Release <==> j == 4)
            &&& forall|j: int| 0 <= j < 5 ==> ((#[trigger] out[j]).kind is Scope <==> j == 0)
        },
{
    lemma_annotation_in_range(stmt, i, d);
}

/// An annotated statement that does not suspend and is the last of its
/// block: the scope is created and entered in front of it, once each, and
/// nothing is written behind it: the scope stays entered to the end of the
/// block.
pub proof fn lemma_last_statement(stmt: Tree, i: int, d: DirectiveView, ident: Seq<char>)
    requires
        annotation(stmt) == Some((i, d)),
        accepted(d),
        awaits_in(without_attr(stmt, i)) == 0,
    ensures
        statement_out(stmt, true, ident) matches Ok(out) && {
            &&& out.len() == 3
            &&& out[0] == creation(stmt, i, d, ident)
            &&& out[1] == synthetic(KindView::Enter, stmt.span)
            &&& out[2] == without_attr(stmt, i)
            &&& forall|j: int| 0 <= j < 3 ==> ((#[trigger] out[j]).kind is Enter <==> j == 1)
            &&& forall|j: int| 0 <= j < 3 ==> !((#[trigger] out[j]).kind is Exit)
            &&& forall|j: int| 0 <= j < 3 ==> !((#[trigger] out[j]).kind is Release)
        },
{
    lemma_annotation_in_range(stmt, i, d);
}

/// An annotated statement that suspends once: the scope is created in front
/// of it, and neither entered nor left by a statement of the block;
/// instead what the suspension point waits for is put inside a wrapper,
/// which leaves the scope before control is given up and enters it again
/// when control is back. Nothing else changes in the statement but that it
/// loses its annotation. This holds wherever the statement stands in its
/// block.
pub proof fn lemma_suspending_statement(
    stmt: Tree,
    i: int,
    d: DirectiveView,
    last: bool,
    ident: Seq<char>,
)
    requires
        annotation(stmt) == Some((i, d)),
        accepted(d),
        awaits_in(without_attr(stmt, i)) == 1,
    ensures
        statement_out(stmt, last, ident) matches Ok(out) && {
            &&& out.len() == 2
            &&& out[0] == creation(stmt, i, d, ident)
            &&& out[1] == instrumented(without_attr(stmt, i))
            &&& all_wrapped(out[1])
            &&& unwrapped(out[1]) == without_attr(stmt, i)
            &&& forall|j: int|
                0 <= j < 2 ==> {
                    &&& !((#[trigger] out[j]).kind is Enter)
                    &&& !(out[j].kind is Exit)
                    &&& !(out[j].kind is Release)
                }
        },
{
    lemma_annotation_in_range(stmt, i, d);
    let bare = without_attr(stmt, i);
    lemma_instrumented_wraps(bare);
    lemma_instrumented_unwrapped(bare);
}

/// An annotated statement that suspends more than once is refused, at its
/// own place, wherever it stands in its block.
pub proof fn lemma_suspending_twice(
    stmt: Tree,
    i: int,
    d: DirectiveView,
    last: bool,
    ident: Seq<char>,
)
    requires
        annotation(stmt) == Some((i, d)),
        accepted(d),
        awaits_in(without_attr(stmt, i)) >= 2,
    ensures
        statement_out(stmt, last, ident) == Err::<Seq<Tree>, RewriteError>(
            RewriteError::MultipleSuspensions(stmt.span),
        ),
{
    lemma_annotation_in_range(stmt, i, d);
}

/// An annotation whose fields the lexer of `proc-macro2` does not take for
/// tokens is refused, at the place of the annotation, whatever its
/// statement does.
pub proof fn lemma_invalid_fields(
    stmt: Tree,
    i: int,
    d: DirectiveView,
    last: bool,
    ident: Seq<char>,
)
    requires
        annotation(stmt) == Some((i, d)),
        !accepted(d),
    ensures
        statement_out(stmt, last, ident) == Err::<Seq<Tree>, RewriteError>(
            RewriteError::InvalidFields(stmt.attrs[i].span),
        ),
{
    lemma_annotation_in_range(stmt, i, d);
}

/// Fields that the lexer of `proc-macro2` alone refuses are fields that
/// rewriting comes to with everything before them accepted.
pub proof fn lemma_refused_fields_reached(t: Tree, ident: Seq<char>, at: SourceSpan)
    requires
        rewritten(t, ident) == Err::<Tree, RewriteError>(RewriteError::InvalidFields(at)),
    ensures
        fields_reached(t, ident, at),
    decreases t, 0nat,
{
    if t.kind is Block {
        lemma_refused_fields_reached_in_block(t.children, t.children.len(), ident, at);
    } else {
        lemma_refused_fields_reached_among(t.children, t.children.len(), ident, at);
    }
}

/// The same of the first `k` parts of a list.
proof fn lemma_refused_fields_reached_among(
    ts: Seq<Tree>,
    k: nat,
    ident: Seq<char>,
    at: SourceSpan,
)
    requires
        k <= ts.len(),
        rewritten_all(ts, k, ident) == Err::<Seq<Tree>, RewriteError>(
            RewriteError::InvalidFields(at),
        ),
    ensures
        fields_reached_among(ts, k, ident, at),
    decreases ts, k,
{
    if k > 0 {
        if rewritten_all(ts, (k - 1) as nat, ident) is Err {
            lemma_refused_fields_reached_among(ts, (k - 1) as nat, ident, at);
        } else {
            lemma_refused_fields_reached(ts[k - 1], ident, at);
        }
    }
}

/// The same of the first `k` statements of a block.
proof fn lemma_refused_fields_reached_in_block(
    stmts: Seq<Tree>,
    k: nat,
    ident: Seq<char>,
    at: SourceSpan,
)
    requires
        k <= stmts.len(),
        block_out(stmts, k, ident) == Err::<Seq<Tree>, RewriteError>(
            RewriteError::InvalidFields(at),
        ),
    ensures
        fields_reached_in_block(stmts, k, ident, at),
    decreases stmts, k,
{
    if k > 0 {
        if block_out(stmts, (k - 1) as nat, ident) is Err {
            lemma_refused_fields_reached_in_block(stmts, (k - 1) as nat, ident, at);
        } else if rewritten(stmts[k - 1], ident) is Err {
            lemma_refused_fields_reached(stmts[k - 1], ident, at);
        }
    }
}

/// A block with a statement that is refused is refused.
pub proof fn lemma_refused_statement(stmts: Seq<Tree>, k: int, ident: Seq<char>)
    requires
        0 <= k < stmts.len(),
        rewritten(stmts[k], ident) matches Ok(stmt) && statement_out(
            stmt,
            k + 1 == stmts.len(),
            ident,
        ) is Err,
    ensures
        block_out(stmts, stmts.len(), ident) is Err,
{
    lemma_block_out_fails(stmts, (k + 1) as nat, stmts.len(), ident);
}

/// The statement `stmt` as it stands in what is written for it: without its
/// annotation, and with what it waits for wrapped if it suspends once.
pub open spec fn image(stmt: Tree) -> Tree {
    match annotation(stmt) {
        None => stmt,
        Some((i, _)) => if awaits_in(without_attr(stmt, i)) == 1 {
            instrumented(without_attr(stmt, i))
        } else {
            without_attr(stmt, i)
        },
    }
}

/// The number of statements that are written in front of `stmt`.
pub open spec fn lead(stmt: Tree) -> nat {
    match annotation(stmt) {
        None => 0,
        Some((i, _)) => if awaits_in(without_attr(stmt, i)) == 1 {
            1
        } else {
            2
        },
    }
}

/// Where the statement at position `k` of a block stands among what is
/// written for the block.
pub open spec fn place(stmts: Seq<Tree>, k: int, ident: Seq<char>) -> int {
    (block_out(stmts, k as nat, ident)->Ok_0.len() + lead(rewritten(stmts[k], ident)->Ok_0)) as int
}

/// What is written for a statement holds the statement once, as its image;
/// everything else in it is written by the engine.
pub proof fn lemma_statement_kept(stmt: Tree, last: bool, ident: Seq<char>)
    requires
        statement_out(stmt, last, ident) is Ok,
    ensures
        ({
            let out = statement_out(stmt, last, ident)->Ok_0;
            &&& lead(stmt) < out.len()
            &&& out[lead(stmt) as int] == image(stmt)
            &&& forall|j: int| 0 <= j < out.len() && j != lead(stmt) ==> written(#[trigger] out[j])
        }),
{
    match annotation(stmt) {
        None => {},
        Some((i, d)) => {
            lemma_annotation_in_range(stmt, i, d);
        },
    }
}

/// What is written for the first statements of a block opens what is
/// written for more of them.
pub proof fn lemma_block_out_grows(stmts: Seq<Tree>, j: nat, k: nat, ident: Seq<char>)
    requires
        j <= k <= stmts.len(),
        block_out(stmts, k, ident) is Ok,
    ensures
        block_out(stmts, j, ident) is Ok,
        block_out(stmts, j, ident)->Ok_0.is_prefix_of(block_out(stmts, k, ident)->Ok_0),
    decreases k,
{
    if j < k {
        lemma_block_out_grows(stmts, j, (k - 1) as nat, ident);
    }
}

/// Rewriting a block keeps its statements and their order. Every statement
/// of the block stands in what is written for the block, as the image of
/// what it is rewritten to inside; a statement that stands before another
/// one in the block does so in what is written; and everything else there
/// is written by the engine.
pub proof fn lemma_block_order(stmts: Seq<Tree>, ident: Seq<char>)
    requires
        block_out(stmts, stmts.len(), ident) is Ok,
    ensures
        ({
            let out = block_out(stmts, stmts.len(), ident)->Ok_0;
            &&& forall|k: int|
                0 <= k < stmts.len() ==> {
                    &&& 0 <= #[trigger] place(stmts, k, ident) < out.len()
                    &&& out[place(stmts, k, ident)] == image(rewritten(stmts[k], ident)->Ok_0)
                }
            &&& forall|j: int, k: int|
                0 <= j < k < stmts.len() ==> #[trigger] place(stmts, j, ident) < #[trigger] place(
                    stmts,
                    k,
                    ident,
                )
            &&& forall|p: int|
                0 <= p < out.len() ==> written(#[trigger] out[p]) || exists|k: int|
                    0 <= k < stmts.len() && p == place(stmts, k, ident)
        }),
{
    let n = stmts.len();
    let out = block_out(stmts, n, ident)->Ok_0;
    assert forall|k: int| 0 <= k < n implies {
        &&& 0 <= #[trigger] place(stmts, k, ident) < out.len()
        &&& out[place(stmts, k, ident)] == image(rewritten(stmts[k], ident)->Ok_0)
        &&& block_out(stmts, (k + 1) as nat, ident)->Ok_0.len() > place(stmts, k, ident)
        &&& block_out(stmts, k as nat, ident)->Ok_0.len() <= place(stmts, k, ident)
    } by {
        lemma_block_place(stmts, k, ident);
    }
    assert forall|j: int, k: int| 0 <= j < k < n implies #[trigger] place(stmts, j, ident)
        < #[trigger] place(stmts, k, ident) by {
        lemma_block_out_grows(stmts, k as nat, n, ident);
        lemma_block_out_grows(stmts, (j + 1) as nat, k as nat, ident);
    }
    lemma_block_rest_written(stmts, n, ident);
}

/// The statement at position `k` of a block stands at its place in what is
/// written for the block.
proof fn lemma_block_place(stmts: Seq<Tree>, k: int, ident: Seq<char>)
    requires
        0 <= k < stmts.len(),
        block_out(stmts, stmts.len(), ident) is Ok,
    ensures
        ({
            let out = block_out(stmts, stmts.len(), ident)->Ok_0;
            &&& block_out(stmts, k as nat, ident) is Ok
            &&& block_out(stmts, (k + 1) as nat, ident) is Ok
            &&& block_out(stmts, k as nat, ident)->Ok_0.len() <= place(stmts, k, ident)
                < block_out(stmts, (k + 1) as nat, ident)->Ok_0.len() <= out.len()
            &&& out[place(stmts, k, ident)] == image(rewritten(stmts[k], ident)->Ok_0)
        }),
{
    let n = stmts.len();
    lemma_block_out_grows(stmts, (k + 1) as nat, n, ident);
    lemma_block_out_grows(stmts, k as nat, (k + 1) as nat, ident);
    let stmt = rewritten(stmts[k], ident)->Ok_0;
    lemma_statement_kept(stmt, k + 1 == n, ident);
    let done = block_out(stmts, k as nat, ident)->Ok_0;
    let more = statement_out(stmt, k + 1 == n, ident)->Ok_0;
    assert((done + more)[place(stmts, k, ident)] == more[lead(stmt) as int]);
}

/// Among what is written for the first `m` statements of a block,
/// everything that the engine did not write stands at the place of one of
/// these statements.
proof fn lemma_block_rest_written(stmts: Seq<Tree>, m: nat, ident: Seq<char>)
    requires
        m <= stmts.len(),
        block_out(stmts, m, ident) is Ok,
    ensures
        forall|p: int|
            0 <= p < block_out(stmts, m, ident)->Ok_0.len() ==> written(
                #[trigger] block_out(stmts, m, ident)->Ok_0[p],
            ) || exists|k: int| 0 <= k < m && p == place(stmts, k, ident),
    decreases m,
{
    if m > 0 {
        let k = m - 1;
        lemma_block_rest_written(stmts, k as nat, ident);
        let done = block_out(stmts, k as nat, ident)->Ok_0;
        let stmt = rewritten(stmts[k], ident)->Ok_0;
        let more = statement_out(stmt, m == stmts.len(), ident)->Ok_0;
        lemma_statement_kept(stmt, m == stmts.len(), ident);
        let out = block_out(stmts, m, ident)->Ok_0;
        assert forall|p: int| 0 <= p < out.len() implies written(#[trigger] out[p]) || exists|
            k: int,
        | 0 <= k < m && p == place(stmts, k, ident) by {
            if p < done.len() {
                if !written(done[p]) {
                    let k0 = choose|k0: int| 0 <= k0 < k && p == place(stmts, k0, ident);
                    assert(0 <= k0 < m && p == place(stmts, k0, ident));
                }
            } else if p - done.len() == lead(stmt) {
                assert(p == place(stmts, k, ident));
            }
        }
    }
}

/// `t` with the wrapper under each of its suspension points taken away:
/// where a suspension point holds one wrapper and nothing else, it holds
/// what the wrapper holds instead.
pub open spec fn unwrapped(t: Tree) -> Tree
    decreases t, 0nat,
{
    if t.kind is Async {
        t
    } else if t.kind is Await && t.children.len() == 1 && t.children[0].kind is Wrap {
        Tree {
            kind: t.kind,
            span: t.span,
            attrs: t.attrs,
            children: unwrapped_all(t.children[0].children, t.children[0].children.len()),
        }
    } else {
        Tree {
            kind: t.kind,
            span: t.span,
            attrs: t.attrs,
            children: unwrapped_all(t.children, t.children.len()),
        }
    }
}

/// The first `k` of `ts`, each unwrapped.
pub open spec fn unwrapped_all(ts: Seq<Tree>, k: nat) -> Seq<Tree>
    decreases ts, k,
{
    if k == 0 || k > ts.len() {
        Seq::empty()
    } else {
        unwrapped_all(ts, (k - 1) as nat).push(unwrapped(ts[k - 1]))
    }
}

/// Whether every suspension point that belongs to `t` holds one wrapper and
/// nothing else, at its own place.
pub open spec fn all_wrapped(t: Tree) -> bool
    decreases t,
{
    t.kind is Async || {
        &&& t.kind is Await ==> t.children.len() == 1 && t.children[0].kind is Wrap
            && t.children[0].span == t.span
        &&& forall|i: int| 0 <= i < t.children.len() ==> all_wrapped(#[trigger] t.children[i])
    }
}

/// Instrumenting adds wrappers and nothing else: with the wrappers taken
/// away again the statement is what it was.
pub proof fn lemma_instrumented_unwrapped(t: Tree)
    ensures
        unwrapped(instrumented(t)) == t,
    decreases t, 0nat,
{
    if !(t.kind is Async) {
        let n = t.children.len();
        lemma_instrumented_all_unwrapped(t.children, n);
        lemma_instrumented_all_len(t.children, n);
        assert(t.children.take(n as int) =~= t.children);
    }
}

/// Instrumenting a list and taking the wrappers away again gives the list.
pub proof fn lemma_instrumented_all_unwrapped(ts: Seq<Tree>, k: nat)
    requires
        k <= ts.len(),
    ensures
        unwrapped_all(instrumented_all(ts, k), k) == ts.take(k as int),
    decreases ts, k,
{
    lemma_instrumented_all_len(ts, k);
    if k > 0 {
        let j = (k - 1) as nat;
        lemma_instrumented_all_unwrapped(ts, j);
        lemma_instrumented_all_len(ts, j);
        lemma_instrumented_unwrapped(ts[k - 1]);
        lemma_unwrapped_all_prefix(instrumented_all(ts, k), instrumented_all(ts, j), j);
    }
}

/// Instrumenting a list gives a list of the same length, part for part.
pub proof fn lemma_instrumented_all_len(ts: Seq<Tree>, k: nat)
    requires
        k <= ts.len(),
    ensures
        instrumented_all(ts, k).len() == k,
        forall|i: int| 0 <= i < k ==> #[trigger] instrumented_all(ts, k)[i] == instrumented(ts[i]),
    decreases k,
{
    if k > 0 {
        lemma_instrumented_all_len(ts, (k - 1) as nat);
    }
}

/// Unwrapping the first parts of a list looks at these parts only.
proof fn lemma_unwrapped_all_prefix(a: Seq<Tree>, b: Seq<Tree>, k: nat)
    requires
        k <= a.len(),
        k <= b.len(),
        forall|i: int| 0 <= i < k ==> a[i] == b[i],
    ensures
        unwrapped_all(a, k) == unwrapped_all(b, k),
    decreases k,
{
    if k > 0 {
        lemma_unwrapped_all_prefix(a, b, (k - 1) as nat);
    }
}

/// After instrumenting, every suspension point that belongs to the
/// statement holds a wrapper, and the statement has as many suspension
/// points as before.
pub proof fn lemma_instrumented_wraps(t: Tree)
    ensures
        all_wrapped(instrumented(t)),
        awaits_in(instrumented(t)) == awaits_in(t),
    decreases t, 0nat,
{
    if !(t.kind is Async) {
        let n = t.children.len();
        let inner = instrumented_all(t.children, n);
        lemma_instrumented_all_len(t.children, n);
        lemma_instrumented_all_wraps(t.children, n);
        assert forall|i: int| 0 <= i < inner.len() implies all_wrapped(#[trigger] inner[i]) by {
            lemma_instrumented_wraps(t.children[i]);
        }
        lemma_awaits_among_same(inner, t.children, n);
        if t.kind is Await {
            let w = wrapper(t.span, inner);
            let r = instrumented(t);
            assert(all_wrapped(w));
            assert(awaits_among(r.children, 1) == awaits_among(r.children, 0) + awaits_in(w));
        }
    }
}

/// Instrumenting the parts of a list keeps the number of suspension points
/// of each.
proof fn lemma_instrumented_all_wraps(ts: Seq<Tree>, k: nat)
    requires
        k <= ts.len(),
    ensures
        forall|i: int| 0 <= i < k ==> awaits_in(instrumented(#[trigger] ts[i])) == awaits_in(ts[i]),
    decreases ts, k,
{
    if k > 0 {
        lemma_instrumented_all_wraps(ts, (k - 1) as nat);
        lemma_instrumented_wraps(ts[k - 1]);
    }
}

/// Lists whose parts have the same numbers of suspension points have the
/// same number in all.
proof fn lemma_awaits_among_same(a: Seq<Tree>, b: Seq<Tree>, k: nat)
    requires
        k <= a.len(),
        k <= b.len(),
        forall|i: int| 0 <= i < k ==> awaits_in(#[trigger] a[i]) == awaits_in(b[i]),
    ensures
        awaits_among(a, k) == awaits_among(b, k),
    decreases k,
{
    if k > 0 {
        lemma_awaits_among_same(a, b, (k - 1) as nat);
    }
}

/// `t` with everything taken away that the engine writes, in all of its
/// parts: the statements that create, enter, leave and give up a scope are
/// gone, and where a wrapper stood, what it holds stands.
pub open spec fn erased(t: Tree) -> Tree
    decreases t, 0nat,
{
    Tree {
        kind: t.kind,
        span: t.span,
        attrs: t.attrs,
        children: erased_all(t.children, t.children.len()),
    }
}

/// The first `k` of `ts` with everything taken away that the engine writes.
pub open spec fn erased_all(ts: Seq<Tree>, k: nat) -> Seq<Tree>
    decreases ts, k,
{
    if k == 0 || k > ts.len() {
        Seq::empty()
    } else if written(ts[k - 1]) {
        erased_all(ts, (k - 1) as nat)
    } else if ts[k - 1].kind is Wrap {
        erased_all(ts, (k - 1) as nat) + erased_all(ts[k - 1].children, ts[k - 1].children.len())
    } else {
        erased_all(ts, (k - 1) as nat).push(erased(ts[k - 1]))
    }
}

/// The statement `stmt` without its annotation.
pub open spec fn unmarked(stmt: Tree) -> Tree {
    match annotation(stmt) {
        None => stmt,
        Some((i, _)) => without_attr(stmt, i),
    }
}

/// `t` without the annotations of the statements of its blocks.
pub open spec fn without_annotations(t: Tree) -> Tree
    decreases t, 0nat,
{
    Tree {
        kind: t.kind,
        span: t.span,
        attrs: t.attrs,
        children: without_annotations_all(t.children, t.children.len(), t.kind is Block),
    }
}

/// The first `k` of `ts` without the annotations of the statements of their
/// blocks, and without their own if they are the statements of a block.
pub open spec fn without_annotations_all(ts: Seq<Tree>, k: nat, block: bool) -> Seq<Tree>
    decreases ts, k,
{
    if k == 0 || k > ts.len() {
        Seq::empty()
    } else if block {
        without_annotations_all(ts, (k - 1) as nat, block).push(
            unmarked(without_annotations(ts[k - 1])),
        )
    } else {
        without_annotations_all(ts, (k - 1) as nat, block).push(without_annotations(ts[k - 1]))
    }
}

/// Rewriting only adds. Take away from the rewritten tree what the engine
/// writes, and from the tree that was rewritten the annotations: what is
/// left is the same. No statement is lost, changed or moved.
pub proof fn lemma_rewriting_only_adds(t: Tree, ident: Seq<char>)
    requires
        rewritten(t, ident) is Ok,
    ensures
        erased(rewritten(t, ident)->Ok_0) == erased(without_annotations(t)),
    decreases t, 0nat,
{
    let n = t.children.len();
    if t.kind is Block {
        lemma_block_only_adds(t.children, n, ident);
    } else {
        lemma_parts_only_add(t.children, n, ident);
    }
    lemma_rewritten_all_len(t.children, n, ident);
    lemma_without_annotations_all_len(t.children, n, t.kind is Block);
}

/// Rewriting keeps the number of parts that are no statements of a block.
proof fn lemma_rewritten_all_len(ts: Seq<Tree>, k: nat, ident: Seq<char>)
    requires
        k <= ts.len(),
    ensures
        rewritten_all(ts, k, ident) matches Ok(out) ==> out.len() == k,
    decreases k,
{
    if k > 0 {
        lemma_rewritten_all_len(ts, (k - 1) as nat, ident);
    }
}

/// Taking annotations away keeps the number of parts.
proof fn lemma_without_annotations_all_len(ts: Seq<Tree>, k: nat, block: bool)
    requires
        k <= ts.len(),
    ensures
        without_annotations_all(ts, k, block).len() == k,
    decreases k,
{
    if k > 0 {
        lemma_without_annotations_all_len(ts, (k - 1) as nat, block);
    }
}

/// Erasing looks at the parts it is asked for only.
proof fn lemma_erased_all_prefix(a: Seq<Tree>, b: Seq<Tree>, k: nat)
    requires
        k <= a.len(),
        k <= b.len(),
        forall|i: int| 0 <= i < k ==> a[i] == b[i],
    ensures
        erased_all(a, k) == erased_all(b, k),
    decreases k,
{
    if k > 0 {
        lemma_erased_all_prefix(a, b, (k - 1) as nat);
    }
}

/// Erasing two lists, one after the other.
proof fn lemma_erased_all_add(a: Seq<Tree>, b: Seq<Tree>, k: nat)
    requires
        k <= b.len(),
    ensures
        erased_all(a + b, a.len() + k) == erased_all(a, a.len()) + erased_all(b, k),
    decreases k,
{
    if k == 0 {
        lemma_erased_all_prefix(a + b, a, a.len());
    } else {
        lemma_erased_all_add(a, b, (k - 1) as nat);
        assert((a + b)[a.len() + k - 1] == b[k - 1]);
    }
}

/// The wrappers that instrumenting adds are erased with the rest.
proof fn lemma_instrumented_erased(t: Tree)
    ensures
        erased(instrumented(t)) == erased(t),
    decreases t, 0nat,
{
    if !(t.kind is Async) {
        let n = t.children.len();
        let inner = instrumented_all(t.children, n);
        lemma_instrumented_all_len(t.children, n);
        lemma_instrumented_all_erased(t.children, n);
        if t.kind is Await {
            assert(erased_all(seq![wrapper(t.span, inner)], 0) =~= Seq::<Tree>::empty());
        }
    }
}

/// The wrappers that instrumenting adds to the parts of a list are erased
/// with the rest.
proof fn lemma_instrumented_all_erased(ts: Seq<Tree>, k: nat)
    requires
        k <= ts.len(),
    ensures
        erased_all(instrumented_all(ts, k), k) == erased_all(ts, k),
    decreases ts, k,
{
    lemma_instrumented_all_len(ts, k);
    if k > 0 {
        let j = (k - 1) as nat;
        lemma_instrumented_all_erased(ts, j);
        lemma_instrumented_all_len(ts, j);
        lemma_erased_all_prefix(instrumented_all(ts, k), instrumented_all(ts, j), j);
        lemma_instrumented_erased(ts[k - 1]);
    }
}

/// What is written for a statement is, once what the engine writes is taken
/// away, the statement without its annotation.
proof fn lemma_statement_only_adds(stmt: Tree, last: bool, ident: Seq<char>)
    requires
        statement_out(stmt, last, ident) is Ok,
    ensures
        ({
            let out = statement_out(stmt, last, ident)->Ok_0;
            erased_all(out, out.len()) == erased_all(seq![unmarked(stmt)], 1)
        }),
{
    let out = statement_out(stmt, last, ident)->Ok_0;
    let plain = seq![unmarked(stmt)];
    assert(erased_all(plain, 0) =~= Seq::<Tree>::empty());
    match annotation(stmt) {
        None => {},
        Some((i, d)) => {
            lemma_annotation_in_range(stmt, i, d);
            let bare = without_attr(stmt, i);
            assert(erased_all(out, 0) =~= Seq::<Tree>::empty());
            assert(erased_all(out, 1) =~= Seq::<Tree>::empty());
            if awaits_in(bare) == 1 {
                lemma_instrumented_erased(bare);
            } else if last {
                assert(erased_all(out, 2) =~= Seq::<Tree>::empty());
            } else {
                assert(erased_all(out, 2) =~= Seq::<Tree>::empty());
                assert(erased_all(out, 4) == erased_all(out, 3));
            }
        },
    }
}

/// Erasing a statement that comes from erasing the same thing gives the
/// same.
proof fn lemma_erased_one(a: Tree, b: Tree)
    requires
        a.kind == b.kind,
        erased(a) == erased(b),
    ensures
        erased_all(seq![a], 1) == erased_all(seq![b], 1),
{
    assert(erased_all(seq![a], 0) =~= erased_all(seq![b], 0));
}

/// Taking the attribute at one position away and erasing can be done in
/// either order.
proof fn lemma_unmarked_erased(a: Tree, b: Tree)
    requires
        a.kind == b.kind,
        a.attrs == b.attrs,
        erased(a) == erased(b),
    ensures
        annotation(a) == annotation(b),
        unmarked(a).kind == unmarked(b).kind,
        erased(unmarked(a)) == erased(unmarked(b)),
{
}

/// The parts of a tree that is no block: rewriting only adds.
proof fn lemma_parts_only_add(ts: Seq<Tree>, k: nat, ident: Seq<char>)
    requires
        k <= ts.len(),
        rewritten_all(ts, k, ident) is Ok,
    ensures
        ({
            let out = rewritten_all(ts, k, ident)->Ok_0;
            &&& out.len() == k
            &&& erased_all(out, k) == erased_all(without_annotations_all(ts, k, false), k)
        }),
    decreases ts, k,
{
    lemma_rewritten_all_len(ts, k, ident);
    lemma_without_annotations_all_len(ts, k, false);
    if k > 0 {
        let j = (k - 1) as nat;
        lemma_parts_only_add(ts, j, ident);
        lemma_rewritten_all_len(ts, j, ident);
        lemma_without_annotations_all_len(ts, j, false);
        let t = ts[k - 1];
        lemma_rewriting_only_adds(t, ident);
        lemma_rewritten_keeps_head(t, ident);
        lemma_erased_all_prefix(
            rewritten_all(ts, k, ident)->Ok_0,
            rewritten_all(ts, j, ident)->Ok_0,
            j,
        );
        lemma_erased_all_prefix(
            without_annotations_all(ts, k, false),
            without_annotations_all(ts, j, false),
            j,
        );
    }
}

/// The statements of a block: rewriting only adds.
proof fn lemma_block_only_adds(stmts: Seq<Tree>, k: nat, ident: Seq<char>)
    requires
        k <= stmts.len(),
        block_out(stmts, k, ident) is Ok,
    ensures
        ({
            let out = block_out(stmts, k, ident)->Ok_0;
            erased_all(out, out.len()) == erased_all(without_annotations_all(stmts, k, true), k)
        }),
    decreases stmts, k,
{
    lemma_without_annotations_all_len(stmts, k, true);
    if k > 0 {
        let j = (k - 1) as nat;
        lemma_block_only_adds(stmts, j, ident);
        lemma_without_annotations_all_len(stmts, j, true);
        let t = stmts[k - 1];
        lemma_rewriting_only_adds(t, ident);
        lemma_rewritten_keeps_head(t, ident);
        let a = rewritten(t, ident)->Ok_0;
        let b = without_annotations(t);
        let last = k == stmts.len();
        lemma_statement_only_adds(a, last, ident);
        lemma_unmarked_erased(a, b);
        lemma_erased_one(unmarked(a), unmarked(b));
        let done = block_out(stmts, j, ident)->Ok_0;
        let more = statement_out(a, last, ident)->Ok_0;
        lemma_erased_all_add(done, more, more.len());
        let plain = without_annotations_all(stmts, k, true);
        let before = without_annotations_all(stmts, j, true);
        assert(plain =~= before + seq![unmarked(b)]);
        lemma_erased_all_add(before, seq![unmarked(b)], 1);
    }
}

} // verus!
