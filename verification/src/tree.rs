//! The syntax tree that the engine reads and writes.
//!
//! Every node has the same shape, whatever it stands for: a kind, a place in
//! the source, a list of attributes and a list of children. A block's
//! children are its statements, in order. Contracts speak of a node by its
//! view, a [`Tree`].

use crate::args::text_view;
use vstd::prelude::*;

verus! {

/// A place in the source. The front end that builds a tree hands these out
/// and knows what each stands for; the engine only carries them along.
#[derive(Clone, Copy, Debug, PartialEq, Eq, Hash, Structural)]
pub struct SourceSpan(pub u64);

/// Why a function body cannot be rewritten.
#[derive(Clone, Copy, Debug, PartialEq, Eq, Structural)]
pub enum RewriteError {
    /// The fields of the annotation at this place are not made of valid
    /// tokens.
    InvalidFields(SourceSpan),
    /// The annotated statement at this place suspends more than once.
    MultipleSuspensions(SourceSpan),
}

impl RewriteError {
    /// What the error says to the author of the function.
    pub open spec fn text(self) -> Seq<char> {
        match self {
            RewriteError::InvalidFields(_) => "the fields of this annotation are not valid tokens"@,
            RewriteError::MultipleSuspensions(_) =>
                "an annotated statement may hold one suspension point only"@,
        }
    }

    /// The place that the error is about.
    pub open spec fn place(self) -> SourceSpan {
        match self {
            RewriteError::InvalidFields(span) => span,
            RewriteError::MultipleSuspensions(span) => span,
        }
    }

    /// The place that the error is about.
    pub fn span(&self) -> (span: SourceSpan)
        ensures
            span == self.place(),
    {
        match self {
            RewriteError::InvalidFields(span) => *span,
            RewriteError::MultipleSuspensions(span) => *span,
        }
    }

    /// What the error says to the author of the function.
    pub fn message(&self) -> (text: &'static str)
        ensures
            text@ == self.text(),
    {
        match self {
            RewriteError::InvalidFields(_) => "the fields of this annotation are not valid tokens",
            RewriteError::MultipleSuspensions(_) =>
                "an annotated statement may hold one suspension point only",
        }
    }
}

/// One entry of the list of attributes that a statement or an expression
/// carries.
#[derive(Debug, PartialEq, Eq)]
pub struct Attr {
    /// Where the attribute stands.
    pub span: SourceSpan,
    /// Whether it is a documentation comment.
    pub doc: bool,
    /// Its text, where its value is a string.
    pub text: Option<String>,
}

/// An [`Attr`] as plain values.
pub struct AttrView {
    pub span: SourceSpan,
    pub doc: bool,
    pub text: Option<Seq<char>>,
}

impl View for Attr {
    type V = AttrView;

    open spec fn view(&self) -> AttrView {
        AttrView { span: self.span, doc: self.doc, text: text_view(self.text) }
    }
}

/// A scope to create: what an annotation becomes.
#[derive(Debug, PartialEq, Eq)]
pub struct Scope {
    /// The name of the scope: the enclosing function's name and `::comment`.
    pub name: String,
    /// The label of the annotation, recorded with the scope.
    pub label: String,
    /// The fields of the annotation, as source text, recorded as they stand.
    pub fields: Option<String>,
    /// Where the annotation stood.
    pub span: SourceSpan,
}

/// A [`Scope`] as plain values.
pub struct ScopeView {
    pub name: Seq<char>,
    pub label: Seq<char>,
    pub fields: Option<Seq<char>>,
    pub span: SourceSpan,
}

impl View for Scope {
    type V = ScopeView;

    open spec fn view(&self) -> ScopeView {
        ScopeView {
            name: self.name@,
            label: self.label@,
            fields: text_view(self.fields),
            span: self.span,
        }
    }
}

/// What a node stands for.
#[derive(Debug, PartialEq, Eq)]
pub enum NodeKind {
    /// A block: its children are its statements.
    Block,
    /// A statement that binds a name, as `let` does.
    Binding,
    /// The declaration of an item.
    Item,
    /// An expression of any kind that is not named below.
    Expr,
    /// Tokens that were never parsed: an expression without attributes.
    Verbatim,
    /// A suspension point; its child is what it waits for.
    Await,
    /// A computation that is set up here and scheduled by itself later; its
    /// suspension points are its own.
    Async,
    /// Written by the engine: the statement that creates a scope.
    Scope(Scope),
    /// Written by the engine: the statement that enters the scope.
    Enter,
    /// Written by the engine: the statement that leaves the scope.
    Exit,
    /// Written by the engine: the statement that gives the scope up.
    Release,
    /// Written by the engine: around what a suspension point waits for; it
    /// leaves the scope before control is given up and enters it again when
    /// control is back.
    Wrap,
}

/// A [`NodeKind`] as plain values.
pub enum KindView {
    Block,
    Binding,
    Item,
    Expr,
    Verbatim,
    Await,
    Async,
    Scope(ScopeView),
    Enter,
    Exit,
    Release,
    Wrap,
}

impl View for NodeKind {
    type V = KindView;

    open spec fn view(&self) -> KindView {
        match self {
            NodeKind::Block => KindView::Block,
            NodeKind::Binding => KindView::Binding,
            NodeKind::Item => KindView::Item,
            NodeKind::Expr => KindView::Expr,
            NodeKind::Verbatim => KindView::Verbatim,
            NodeKind::Await => KindView::Await,
            NodeKind::Async => KindView::Async,
            NodeKind::Scope(scope) => KindView::Scope(scope@),
            NodeKind::Enter => KindView::Enter,
            NodeKind::Exit => KindView::Exit,
            NodeKind::Release => KindView::Release,
            NodeKind::Wrap => KindView::Wrap,
        }
    }
}

/// A node of the syntax tree.
#[derive(Debug, PartialEq, Eq)]
pub struct Node {
    /// What the node stands for.
    pub kind: NodeKind,
    /// Where it stands.
    pub span: SourceSpan,
    /// The attributes it carries, in order.
    pub attrs: Vec<Attr>,
    /// Its parts, in order.
    pub children: Vec<Node>,
}

/// A [`Node`] as plain values: the tree that contracts speak of.
pub struct Tree {
    pub kind: KindView,
    pub span: SourceSpan,
    pub attrs: Seq<AttrView>,
    pub children: Seq<Tree>,
}

/// Whether `t` is a statement that the engine writes: one that creates,
/// enters, leaves or gives up a scope.
pub open spec fn written(t: Tree) -> bool {
    t.kind is Scope || t.kind is Enter || t.kind is Exit || t.kind is Release
}

/// The views of a list of attributes.
pub open spec fn attr_views(attrs: Seq<Attr>) -> Seq<AttrView> {
    attrs.map_values(|a: Attr| a@)
}

/// The views of a list of nodes.
pub open spec fn node_views(nodes: Seq<Node>) -> Seq<Tree>
    decreases nodes,
{
    if nodes.len() == 0 {
        Seq::empty()
    } else {
        node_views(nodes.drop_last()).push(nodes.last()@)
    }
}

impl View for Node {
    type V = Tree;

    open spec fn view(&self) -> Tree
        decreases self,
    {
        Tree {
            kind: self.kind@,
            span: self.span,
            attrs: attr_views(self.attrs@),
            children: node_views(self.children@),
        }
    }
}

/// The views of a list of nodes are the views of its nodes, one for one.
pub proof fn lemma_node_views(nodes: Seq<Node>)
    ensures
        node_views(nodes).len() == nodes.len(),
        forall|i: int| 0 <= i < nodes.len() ==> #[trigger] node_views(nodes)[i] == nodes[i]@,
    decreases nodes.len(),
{
    if nodes.len() > 0 {
        lemma_node_views(nodes.drop_last());
        assert(node_views(nodes) == node_views(nodes.drop_last()).push(nodes.last()@));
    }
}

/// The views of a list with one node more.
pub proof fn lemma_node_views_push(nodes: Seq<Node>, node: Node)
    ensures
        node_views(nodes.push(node)) == node_views(nodes).push(node@),
{
    assert(nodes.push(node).drop_last() =~= nodes);
}

/// The views of two lists, one after the other.
pub proof fn lemma_node_views_add(a: Seq<Node>, b: Seq<Node>)
    ensures
        node_views(a + b) == node_views(a) + node_views(b),
{
    lemma_node_views(a);
    lemma_node_views(b);
    lemma_node_views(a + b);
}

impl Clone for Attr {
    fn clone(&self) -> (r: Self)
        ensures
            r@ == self@,
    {
        let text = match &self.text {
            Some(t) => Some(t.clone()),
            None => None,
        };
        Attr { span: self.span, doc: self.doc, text }
    }
}

impl Clone for Scope {
    fn clone(&self) -> (r: Self)
        ensures
            r@ == self@,
    {
        let fields = match &self.fields {
            Some(f) => Some(f.clone()),
            None => None,
        };
        Scope { name: self.name.clone(), label: self.label.clone(), fields, span: self.span }
    }
}

impl Clone for NodeKind {
    fn clone(&self) -> (r: Self)
        ensures
            r@ == self@,
    {
        match self {
            NodeKind::Block => NodeKind::Block,
            NodeKind::Binding => NodeKind::Binding,
            NodeKind::Item => NodeKind::Item,
            NodeKind::Expr => NodeKind::Expr,
            NodeKind::Verbatim => NodeKind::Verbatim,
            NodeKind::Await => NodeKind::Await,
            NodeKind::Async => NodeKind::Async,
            NodeKind::Scope(scope) => NodeKind::Scope(scope.clone()),
            NodeKind::Enter => NodeKind::Enter,
            NodeKind::Exit => NodeKind::Exit,
            NodeKind::Release => NodeKind::Release,
            NodeKind::Wrap => NodeKind::Wrap,
        }
    }
}

/// A copy of a list of attributes.
pub fn clone_attrs(attrs: &Vec<Attr>) -> (r: Vec<Attr>)
    ensures
        attr_views(r@) == attr_views(attrs@),
{
    let mut r: Vec<Attr> = Vec::new();
    let mut i: usize = 0;
    while i < attrs.len()
        invariant
            i <= attrs.len(),
            r.len() == i,
            forall|k: int| 0 <= k < i ==> r@[k]@ == attrs@[k]@,
        decreases attrs.len() - i,
    {
        r.push(attrs[i].clone());
        i += 1;
    }
    r
}

impl Clone for Node {
    fn clone(&self) -> (r: Self)
        ensures
            r@ == self@,
        decreases self,
    {
        let mut children: Vec<Node> = Vec::new();
        let mut i: usize = 0;
        while i < self.children.len()
            invariant
                i <= self.children.len(),
                node_views(children@) == node_views(self.children@.take(i as int)),
            decreases self.children.len() - i,
        {
            let child = self.children[i].clone();
            proof {
                lemma_node_views_push(children@, child);
                lemma_node_views_push(self.children@.take(i as int), self.children@[i as int]);
                assert(self.children@.take(i as int).push(self.children@[i as int])
                    =~= self.children@.take(i + 1));
            }
            children.push(child);
            i += 1;
        }
        assert(self.children@.take(i as int) =~= self.children@);
        Node {
            kind: self.kind.clone(),
            span: self.span,
            attrs: clone_attrs(&self.attrs),
            children,
        }
    }
}

impl Attr {
    /// A documentation comment at `span` that reads `text`.
    pub fn doc(span: SourceSpan, text: &str) -> (r: Attr)
        ensures
            r@ == (AttrView { span, doc: true, text: Some(text@) }),
    {
        Attr { span, doc: true, text: Some(text.to_owned()) }
    }

    /// An attribute at `span` that is no documentation comment.
    pub fn other(span: SourceSpan) -> (r: Attr)
        ensures
            r@ == (AttrView { span, doc: false, text: None }),
    {
        Attr { span, doc: false, text: None }
    }
}

impl Node {
    /// A node of the given kind at `span`, without attributes or parts.
    pub fn new(kind: NodeKind, span: SourceSpan) -> (r: Node)
        ensures
            r@ == (Tree { kind: kind@, span, attrs: Seq::empty(), children: Seq::empty() }),
    {
        let r = Node { kind, span, attrs: Vec::new(), children: Vec::new() };
        assert(r@.attrs =~= Seq::empty());
        r
    }

    /// The node with `attr` as its last attribute.
    pub fn with_attr(self, attr: Attr) -> (r: Node)
        ensures
            r@ == (Tree {
                kind: self@.kind,
                span: self@.span,
                attrs: self@.attrs.push(attr@),
                children: self@.children,
            }),
    {
        let Node { kind, span, attrs, children } = self;
        let mut attrs = attrs;
        attrs.push(attr);
        let r = Node { kind, span, attrs, children };
        assert(r@.attrs =~= self@.attrs.push(attr@));
        r
    }

    /// The node with `child` as its last part.
    pub fn with_child(self, child: Node) -> (r: Node)
        ensures
            r@ == (Tree {
                kind: self@.kind,
                span: self@.span,
                attrs: self@.attrs,
                children: self@.children.push(child@),
            }),
    {
        let Node { kind, span, attrs, children } = self;
        let mut children = children;
        proof {
            lemma_node_views_push(children@, child);
        }
        children.push(child);
        Node { kind, span, attrs, children }
    }

    /// Whether the node is a statement that the engine writes.
    pub fn is_written(&self) -> (b: bool)
        ensures
            b == written(self@),
    {
        match self.kind {
            NodeKind::Scope(_) | NodeKind::Enter | NodeKind::Exit | NodeKind::Release => true,
            _ => false,
        }
    }
}

} // verus!
