//! Finding the annotation of a statement.
//!
//! Whether a statement shows the engine its attributes depends on its kind
//! alone. Among the attributes that it shows, only the first documentation
//! comment counts, and it is an annotation only if its text says so.

use crate::args::{directive_of, split, Directive, DirectiveView};
use crate::tree::{attr_views, Attr, AttrView, KindView, Node, NodeKind, Tree};
use vstd::prelude::*;

verus! {

/// The attributes that an expression shows: those it carries, unless it is
/// of a kind that carries none.
pub open spec fn expr_attrs(expr: Tree) -> Option<Seq<AttrView>> {
    match expr.kind {
        KindView::Expr | KindView::Await | KindView::Async => Some(expr.attrs),
        _ => None,
    }
}

/// The attributes that a statement shows. A binding shows its own, the
/// declaration of an item shows none, and every other statement is an
/// expression.
pub open spec fn stmt_attrs(stmt: Tree) -> Option<Seq<AttrView>> {
    match stmt.kind {
        KindView::Binding => Some(stmt.attrs),
        KindView::Item => None,
        _ => expr_attrs(stmt),
    }
}

/// The first position at or after `i` that holds a documentation comment.
pub open spec fn first_doc_from(attrs: Seq<AttrView>, i: int) -> Option<int>
    decreases attrs.len() - i,
{
    if i < 0 || i >= attrs.len() {
        None
    } else if attrs[i].doc {
        Some(i)
    } else {
        first_doc_from(attrs, i + 1)
    }
}

/// The position of the first documentation comment among `attrs`.
pub open spec fn first_doc(attrs: Seq<AttrView>) -> Option<int> {
    first_doc_from(attrs, 0)
}

/// The annotation of a statement: the position of its first documentation
/// comment among the attributes that it shows, and what that comment asks
/// for. A statement that shows no attributes has none, nor has one without a
/// documentation comment, nor one whose first documentation comment has no
/// text or a text without the marker.
pub open spec fn annotation(stmt: Tree) -> Option<(int, DirectiveView)> {
    match stmt_attrs(stmt) {
        None => None,
        Some(attrs) => match first_doc(attrs) {
            None => None,
            Some(i) => match attrs[i].text {
                None => None,
                Some(text) => match directive_of(text) {
                    None => None,
                    Some(d) => Some((i, d)),
                },
            },
        },
    }
}

/// What the search for a documentation comment finds: the first one at or
/// after `i`, or that there is none.
pub proof fn lemma_first_doc_from(attrs: Seq<AttrView>, i: int)
    requires
        0 <= i,
    ensures
        match first_doc_from(attrs, i) {
            Some(k) => {
                &&& i <= k < attrs.len()
                &&& attrs[k].doc
                &&& forall|j: int| i <= j < k ==> !(#[trigger] attrs[j]).doc
            },
            None => forall|j: int| i <= j < attrs.len() ==> !(#[trigger] attrs[j]).doc,
        },
    decreases attrs.len() - i,
{
    if i < attrs.len() && !attrs[i].doc {
        lemma_first_doc_from(attrs, i + 1);
    }
}

/// The attributes that an expression shows.
pub fn from_expr(expr: &Node) -> (r: Option<&Vec<Attr>>)
    ensures
        match r {
            Some(attrs) => *attrs == expr.attrs && expr_attrs(expr@) == Some(attr_views(attrs@)),
            None => expr_attrs(expr@) is None,
        },
{
    match expr.kind {
        NodeKind::Expr | NodeKind::Await | NodeKind::Async => Some(&expr.attrs),
        _ => None,
    }
}

/// The attributes that a statement shows.
pub fn from_stmt(stmt: &Node) -> (r: Option<&Vec<Attr>>)
    ensures
        match r {
            Some(attrs) => *attrs == stmt.attrs && stmt_attrs(stmt@) == Some(attr_views(attrs@)),
            None => stmt_attrs(stmt@) is None,
        },
{
    match stmt.kind {
        NodeKind::Binding => Some(&stmt.attrs),
        NodeKind::Item => None,
        _ => from_expr(stmt),
    }
}

/// The position of the first documentation comment among `attrs`.
pub fn find_doc_attr_ind(attrs: &Vec<Attr>) -> (r: Option<usize>)
    ensures
        match r {
            Some(i) => first_doc(attr_views(attrs@)) == Some(i as int) && i < attrs.len(),
            None => first_doc(attr_views(attrs@)) is None,
        },
{
    let mut i: usize = 0;
    while i < attrs.len()
        invariant
            i <= attrs.len(),
            first_doc_from(attr_views(attrs@), i as int) == first_doc(attr_views(attrs@)),
        decreases attrs.len() - i,
    {
        if attrs[i].doc {
            return Some(i);
        }
        i += 1;
    }
    None
}

/// The annotation of a statement.
pub fn extract(stmt: &Node) -> (r: Option<(usize, Directive)>)
    ensures
        match r {
            Some((i, d)) => annotation(stmt@) == Some((i as int, d@)) && i < stmt.attrs.len(),
            None => annotation(stmt@) is None,
        },
{
    let attrs = match from_stmt(stmt) {
        Some(attrs) => attrs,
        None => {
            return None;
        },
    };
    let i = match find_doc_attr_ind(attrs) {
        Some(i) => i,
        None => {
            return None;
        },
    };
    match &attrs[i].text {
        None => None,
        Some(text) => match split(text.as_str()) {
            None => None,
            Some(d) => Some((i, d)),
        },
    }
}

} // verus!
