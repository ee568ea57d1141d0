use spandoc_core::block::fold_block;
use spandoc_core::guard::FancyGuard;
use spandoc_core::tree::{Attr, Node, NodeKind, SourceSpan};
use std::sync::{Arc, Mutex, OnceLock};
use tracing::callsite::{Callsite, Identifier};
use tracing::field::FieldSet;
use tracing::metadata::Kind;
use tracing::span::{Attributes, Id, Record};
use tracing::subscriber::Interest;
use tracing::{Dispatch, Event, Level, Metadata, Span, Subscriber};

struct Recorder {
    log: Arc<Mutex<Vec<String>>>,
}

impl Subscriber for Recorder {
    fn enabled(&self, _: &Metadata<'_>) -> bool {
        true
    }

    fn new_span(&self, span: &Attributes<'_>) -> Id {
        self.log.lock().unwrap().push(format!("new {}", span.metadata().name()));
        Id::from_u64(1)
    }

    fn record(&self, _: &Id, _: &Record<'_>) {}

    fn record_follows_from(&self, _: &Id, _: &Id) {}

    fn event(&self, _: &Event<'_>) {}

    fn enter(&self, _: &Id) {
        self.log.lock().unwrap().push("enter".to_string());
    }

    fn exit(&self, _: &Id) {
        self.log.lock().unwrap().push("exit".to_string());
    }
}

struct Site {
    meta: OnceLock<Metadata<'static>>,
}

impl Callsite for Site {
    fn set_interest(&self, _: Interest) {}

    fn metadata(&self) -> &Metadata<'_> {
        self.meta.get().unwrap()
    }
}

fn metadata(name: &'static str, level: Level) -> &'static Metadata<'static> {
    let site: &'static Site = Box::leak(Box::new(Site { meta: OnceLock::new() }));
    let fields = FieldSet::new(&[], Identifier(site));
    let meta = Metadata::new(name, "guard", level, None, None, None, fields, Kind::SPAN);
    assert!(site.meta.set(meta).is_ok());
    site.meta.get().unwrap()
}

fn recorded() -> (Arc<Mutex<Vec<String>>>, Span) {
    let log = Arc::new(Mutex::new(Vec::new()));
    let dispatch = Dispatch::new(Recorder { log: log.clone() });
    let meta = metadata("spanned::comment", Level::ERROR);
    let span = Span::new_with(meta, &meta.fields().value_set_all(&[]), &dispatch);
    (log, span)
}

fn seen(log: &Arc<Mutex<Vec<String>>>) -> Vec<String> {
    log.lock().unwrap().clone()
}

#[test]
fn a_new_guard_enters_its_scope() {
    let (log, span) = recorded();
    assert_eq!(seen(&log), ["new spanned::comment"]);
    let guard = FancyGuard::new(&span);
    assert!(guard.is_entered());
    assert_eq!(guard.span(), &span);
    assert_eq!(seen(&log), ["new spanned::comment", "enter"]);
}

#[test]
fn releasing_leaves_the_scope_once() {
    let (log, span) = recorded();
    let mut guard = FancyGuard::new(&span);
    assert!(guard.release());
    assert!(!guard.is_entered());
    assert_eq!(seen(&log), ["new spanned::comment", "enter", "exit"]);
    assert!(!guard.release());
    assert!(!guard.release());
    assert!(!guard.is_entered());
    assert_eq!(seen(&log), ["new spanned::comment", "enter", "exit"]);
}

#[test]
fn the_scope_is_left_while_control_is_given_up() {
    let (log, span) = recorded();
    let mut guard = FancyGuard::new(&span);
    guard.suspend();
    assert!(!guard.is_entered());
    assert_eq!(seen(&log), ["new spanned::comment", "enter", "exit"]);
    guard.resume();
    assert!(guard.is_entered());
    assert_eq!(seen(&log), ["new spanned::comment", "enter", "exit", "enter"]);
    assert!(guard.release());
    assert_eq!(seen(&log), ["new spanned::comment", "enter", "exit", "enter", "exit"]);
}

#[test]
fn a_guard_released_while_suspended_does_not_leave_again() {
    let (log, span) = recorded();
    let mut guard = FancyGuard::new(&span);
    guard.suspend();
    assert!(!guard.release());
    assert_eq!(seen(&log), ["new spanned::comment", "enter", "exit"]);
}

#[test]
fn a_disabled_scope_is_guarded_without_a_subscriber() {
    let span = Span::none();
    let mut guard = FancyGuard::new(&span);
    assert!(guard.is_entered());
    guard.suspend();
    guard.resume();
    assert!(guard.release());
    assert!(!guard.release());
}

#[test]
fn happy() {
    let body = Node::new(NodeKind::Block, SourceSpan(1)).with_child(
        Node::new(NodeKind::Binding, SourceSpan(2))
            .with_attr(Attr::doc(SourceSpan(3), " Setting a to 1"))
            .with_child(Node::new(NodeKind::Expr, SourceSpan(4))),
    );
    assert_eq!(fold_block(&body, "spanned"), Ok(body.clone()));

    let log = Arc::new(Mutex::new(Vec::new()));
    let subscriber = Recorder { log: log.clone() };
    tracing::subscriber::set_global_default(subscriber).expect("Could not set global default");

    let level: Level = "info".parse().unwrap();
    let meta = metadata("eventful", level);
    let span = Span::new(meta, &meta.fields().value_set_all(&[]));
    let mut guard = FancyGuard::new(&span);
    assert!(guard.release());
    assert_eq!(seen(&log), ["new eventful", "enter", "exit"]);
}
