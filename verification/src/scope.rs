//! From an annotation to the scope that stands for it.
//!
//! The scope is named after the enclosing function, carries the label of the
//! annotation, and records the fields as they stand in the annotation. The
//! engine does not read the fields; it only asks whether they are made of
//! valid tokens, and refuses the annotation if they are not.

use crate::args::{directive_of, split, Directive, DirectiveView};
use crate::tree::{Attr, AttrView, RewriteError, Scope, ScopeView, SourceSpan};
use vstd::prelude::*;
use vstd::string::StringExecFns;

verus! {

/// Whether the lexer of `proc-macro2` itself takes `fields` for tokens: it
/// can break the text into the tokens of the language, with every delimiter
/// closed. That lexer reads the text and nothing else.
pub uninterp spec fn fields_lex(fields: Seq<char>) -> bool;

/// Makes a string literal of `fields` and asks `syn::LitStr::parse` to read
/// what it holds as a `proc_macro2::TokenStream`; says whether it could.
///
/// That is the verdict of `proc_macro2::TokenStream::from_str`. Outside a
/// macro expansion it is the verdict of the lexer of `proc-macro2` itself.
/// Inside one the text has to pass that lexer first and the compiler's
/// after it. So a text that is accepted is one that the lexer of
/// `proc-macro2` takes, which is all that is claimed; a text that is
/// refused may be one that only the compiler refuses.
#[verifier::external_body]
fn lex_fields(fields: &str) -> (ok: bool)
    ensures
        ok ==> fields_lex(fields@),
{
    let lit = syn::LitStr::new(fields, proc_macro2::Span::call_site());
    lit.parse::<proc_macro2::TokenStream>().is_ok()
}

/// What follows the function's name in the name of a scope.
pub open spec fn name_suffix() -> Seq<char> {
    seq![':', ':', 'c', 'o', 'm', 'm', 'e', 'n', 't']
}

/// Whether the lexer of `proc-macro2` takes the fields of `d`, if it has
/// any, for tokens. Fields that it does not take are never accepted.
pub open spec fn accepted(d: DirectiveView) -> bool {
    match d.fields {
        Some(fields) => fields_lex(fields),
        None => true,
    }
}

/// The scope for a directive found at `span` inside the function `ident`,
/// where `lexes` is the verdict on its fields. Fields that are refused are
/// an error at `span`; without fields the verdict counts for nothing.
pub open spec fn scope_for(ident: Seq<char>, d: DirectiveView, span: SourceSpan, lexes: bool)
    -> Result<ScopeView, RewriteError> {
    if d.fields is Some && !lexes {
        Err(RewriteError::InvalidFields(span))
    } else {
        Ok(ScopeView { name: ident + name_suffix(), label: d.label, fields: d.fields, span })
    }
}

/// What an attribute asks for, if its text is an annotation.
pub open spec fn directive_of_attr(attr: AttrView) -> Option<DirectiveView> {
    match attr.text {
        None => None,
        Some(text) => directive_of(text),
    }
}

/// The scope that an attribute asks for inside the function `ident`, where
/// the verdict on its fields is that of the lexer of `proc-macro2`: none if
/// it has no text or its text is no annotation.
pub open spec fn scope_of_attr(ident: Seq<char>, attr: AttrView) -> Option<
    Result<ScopeView, RewriteError>,
> {
    match directive_of_attr(attr) {
        None => None,
        Some(d) => Some(scope_for(ident, d, attr.span, accepted(d))),
    }
}

/// The verdict on the fields of `directive`. A directive without fields is
/// accepted. Fields are accepted only if the lexer of `proc-macro2` takes
/// them for tokens; they may be refused though it does, where the compiler
/// is asked as well and refuses them.
pub fn check_fields(directive: &Directive) -> (ok: bool)
    ensures
        ok ==> accepted(directive@),
        directive@.fields is None ==> ok,
{
    match &directive.fields {
        Some(fields) => lex_fields(fields.as_str()),
        None => true,
    }
}

/// The scope for `directive`, found at `span` inside the function `ident`.
/// `lexes` is the verdict on its fields.
pub fn synthesize(ident: &str, directive: Directive, span: SourceSpan, lexes: bool) -> (r: Result<
    Scope,
    RewriteError,
>)
    ensures
        match r {
            Ok(scope) => scope_for(ident@, directive@, span, lexes) == Ok::<
                ScopeView,
                RewriteError,
            >(scope@),
            Err(e) => scope_for(ident@, directive@, span, lexes) == Err::<ScopeView, RewriteError>(
                e,
            ),
        },
{
    if directive.fields.is_some() && !lexes {
        return Err(RewriteError::InvalidFields(span));
    }
    let mut name = ident.to_owned();
    name.append("::comment");
    proof {
        reveal_strlit("::comment");
        assert("::comment"@ =~= name_suffix());
    }
    Ok(Scope { name, label: directive.label, fields: directive.fields, span })
}

/// The scope that `attr` asks for inside the function `ident`: none if its
/// text is no annotation. An annotation without fields always gets its
/// scope. One with fields gets it only if the lexer of `proc-macro2` takes
/// the fields for tokens, and is an error at the place of `attr` if the
/// fields are refused.
pub fn as_span(ident: &str, attr: &Attr) -> (r: Option<Result<Scope, RewriteError>>)
    ensures
        match r {
            None => directive_of_attr(attr@) is None,
            Some(Ok(scope)) => scope_of_attr(ident@, attr@) == Some(
                Ok::<ScopeView, RewriteError>(scope@),
            ),
            Some(Err(e)) => {
                &&& directive_of_attr(attr@) matches Some(d) && d.fields is Some
                &&& e == RewriteError::InvalidFields(attr@.span)
            },
        },
{
    let text = match &attr.text {
        Some(text) => text,
        None => {
            return None;
        },
    };
    let directive = match split(text.as_str()) {
        Some(d) => d,
        None => {
            return None;
        },
    };
    let lexes = check_fields(&directive);
    Some(synthesize(ident, directive, attr.span, lexes))
}

} // verus!
