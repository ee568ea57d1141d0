use spandoc_core::args::Directive;
use spandoc_core::scope::{as_span, check_fields, synthesize};
use spandoc_core::tree::{Attr, RewriteError, Scope, SourceSpan};

fn directive(label: &str, fields: Option<&str>) -> Directive {
    Directive { label: label.to_string(), fields: fields.map(|f| f.to_string()) }
}

fn scope(name: &str, label: &str, fields: Option<&str>, span: u64) -> Scope {
    Scope {
        name: name.to_string(),
        label: label.to_string(),
        fields: fields.map(|f| f.to_string()),
        span: SourceSpan(span),
    }
}

#[test]
fn the_scope_is_named_after_the_function() {
    assert_eq!(
        synthesize("spanned", directive("Setting a to 1", None), SourceSpan(7), true),
        Ok(scope("spanned::comment", "Setting a to 1", None, 7))
    );
    assert_eq!(
        synthesize("", directive("", None), SourceSpan(0), true),
        Ok(scope("::comment", "", None, 0))
    );
}

#[test]
fn fields_are_recorded_as_they_stand() {
    assert_eq!(
        synthesize("main", directive("Doing X", Some("?local,  a = 1")), SourceSpan(3), true),
        Ok(scope("main::comment", "Doing X", Some("?local,  a = 1"), 3))
    );
}

#[test]
fn the_verdict_counts_only_where_there_are_fields() {
    assert_eq!(
        synthesize("main", directive("Doing X", None), SourceSpan(3), false),
        Ok(scope("main::comment", "Doing X", None, 3))
    );
    assert_eq!(
        synthesize("main", directive("Doing X", Some("?local")), SourceSpan(3), false),
        Err(RewriteError::InvalidFields(SourceSpan(3)))
    );
}

#[test]
fn fields_made_of_tokens_are_accepted() {
    let valid = ["?local", "a: {1,2}", "but, this, does", "", "  ", "a = 1, %b, c.d = ?e", "\"s\""];
    for fields in valid {
        assert!(check_fields(&directive("x", Some(fields))), "{:?}", fields);
    }
    assert!(check_fields(&directive("x", None)));
}

#[test]
fn fields_that_are_no_tokens_are_refused() {
    for fields in ["(", "a)", "[1, 2", "\"open", "'", "a: {1,2"] {
        assert!(!check_fields(&directive("x", Some(fields))), "{:?}", fields);
    }
}

#[test]
fn an_attribute_becomes_a_scope() {
    let attr = Attr::doc(SourceSpan(5), " SPANDOC: Emit a tracing info event {?local}");
    assert_eq!(
        as_span("main", &attr),
        Some(Ok(scope("main::comment", "Emit a tracing info event", Some("?local"), 5)))
    );
}

#[test]
fn an_attribute_with_bad_fields_is_an_error_at_its_place() {
    let attr = Attr::doc(SourceSpan(5), " SPANDOC: Emit a tracing info event {(}");
    assert_eq!(as_span("main", &attr), Some(Err(RewriteError::InvalidFields(SourceSpan(5)))));
}

#[test]
fn an_attribute_that_is_no_annotation_becomes_nothing() {
    assert_eq!(as_span("main", &Attr::doc(SourceSpan(5), " so much to do")), None);
    assert_eq!(as_span("main", &Attr::other(SourceSpan(5))), None);
}

#[test]
fn errors_say_where_and_what() {
    let fields = RewriteError::InvalidFields(SourceSpan(4));
    let twice = RewriteError::MultipleSuspensions(SourceSpan(9));
    assert_eq!(fields.span(), SourceSpan(4));
    assert_eq!(twice.span(), SourceSpan(9));
    assert_eq!(fields.message(), "the fields of this annotation are not valid tokens");
    assert_eq!(twice.message(), "an annotated statement may hold one suspension point only");
}
