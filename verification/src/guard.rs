//! The guard that the rewritten code holds while a scope is entered.
//!
//! A guard remembers whether its scope is entered. It is made by entering
//! the scope. Around a suspension the scope is left and entered again
//! through the guard, and when the guard is released it leaves the scope
//! only if the scope is still entered, so that a scope is never left twice.

use vstd::prelude::*;

verus! {

/// `tracing::Span`, the scope of the `tracing` crate. Nothing is known of
/// what a span holds.
#[verifier::external_type_specification]
#[verifier::external_body]
pub struct ExSpan(tracing::Span);

/// Tells the subscriber of `span` that the span is entered, through
/// `tracing::Span::with_subscriber` and `tracing::Dispatch::enter`. A span
/// that is disabled has no subscriber, and nothing happens. Nothing is
/// returned.
#[verifier::external_body]
fn enter(span: &tracing::Span) {
    span.with_subscriber(|(id, sub)| sub.enter(id));
}

/// Tells the subscriber of `span` that the span is left, through
/// `tracing::Span::with_subscriber` and `tracing::Dispatch::exit`. A span
/// that is disabled has no subscriber, and nothing happens. Nothing is
/// returned.
#[verifier::external_body]
fn exit(span: &tracing::Span) {
    span.with_subscriber(|(id, sub)| sub.exit(id));
}

/// Holds a scope entered, and knows whether it is.
pub struct FancyGuard<'a> {
    span: &'a tracing::Span,
    entered: bool,
}

impl<'a> FancyGuard<'a> {
    /// The scope that the guard is for.
    pub closed spec fn scope(&self) -> &'a tracing::Span {
        self.span
    }

    /// Whether the guard holds its scope entered.
    pub closed spec fn entered(&self) -> bool {
        self.entered
    }

    /// Enters `span` and returns the guard that holds it entered.
    pub fn new(span: &'a tracing::Span) -> (guard: FancyGuard<'a>)
        ensures
            guard.scope() == span,
            guard.entered(),
    {
        enter(span);
        FancyGuard { span, entered: true }
    }

    /// Whether the guard holds its scope entered.
    pub fn is_entered(&self) -> (b: bool)
        ensures
            b == self.entered(),
    {
        self.entered
    }

    /// The scope that the guard is for.
    pub fn span(&self) -> (span: &'a tracing::Span)
        ensures
            span == self.scope(),
    {
        self.span
    }

    /// Leaves the scope before control is given up.
    pub fn suspend(&mut self)
        ensures
            final(self).scope() == old(self).scope(),
            !final(self).entered(),
    {
        exit(self.span);
        self.entered = false;
    }

    /// Enters the scope again when control is back.
    pub fn resume(&mut self)
        ensures
            final(self).scope() == old(self).scope(),
            final(self).entered(),
    {
        enter(self.span);
        self.entered = true;
    }

    /// Gives the guard up: leaves the scope if it is entered, and says
    /// whether it did. A guard that was released stays so.
    pub fn release(&mut self) -> (left: bool)
        ensures
            final(self).scope() == old(self).scope(),
            left == old(self).entered(),
            !final(self).entered(),
    {
        if self.entered {
            exit(self.span);
            self.entered = false;
            true
        } else {
            false
        }
    }
}

} // verus!
