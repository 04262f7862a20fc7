use std::sync::atomic::{AtomicU64, Ordering};
use std::sync::Arc;

use rusty_taskflow::tf::component_registry::ComponentEntry;
use rusty_taskflow::{init_components, FlowContext};

#[derive(Debug, PartialEq)]
enum Component {
    Db { url: String },
    Handler { id: u64 },
}

type Factory = Box<dyn Fn() -> Component>;

fn registered() -> Vec<(&'static str, ComponentEntry<Component, Factory>)> {
    let counter = Arc::new(AtomicU64::new(0));
    let make_handler: Factory = Box::new(move || Component::Handler { id: counter.fetch_add(1, Ordering::Relaxed) });
    vec![
        ("db", ComponentEntry::Singleton(Component::Db { url: "postgres://localhost/mydb".to_string() })),
        ("handler", ComponentEntry::Factory(make_handler)),
    ]
}

#[test]
fn test_singleton_same_instance() {
    let ctx = init_components(registered()).unwrap();
    let conn1 = ctx.get_singleton_component("db").unwrap();
    let conn2 = ctx.get_singleton_component("db").unwrap();
    assert_eq!(conn1, conn2);
    assert!(std::ptr::eq(conn1, conn2));
}

#[test]
fn test_factory_new_instance_each_time() {
    let ctx = init_components(registered()).unwrap();
    let h1 = ctx.create_component("handler").unwrap();
    let h2 = ctx.create_component("handler").unwrap();
    assert_ne!(h1, h2);
}

#[test]
fn test_type_mismatch_returns_none() {
    let ctx = init_components(registered()).unwrap();
    assert!(ctx.create_component("db").is_none());
    assert!(ctx.get_singleton_component("handler").is_none());
    assert!(ctx.get_singleton_component("missing").is_none());
    assert!(ctx.create_component("missing").is_none());
}

#[test]
fn duplicate_registration_is_refused() {
    let mut entries = registered();
    entries.push(("db", ComponentEntry::Singleton(Component::Db { url: "other".to_string() })));
    match init_components(entries) {
        Err(name) => assert_eq!(name, "db"),
        Ok(_) => panic!("duplicate component accepted"),
    }
}

#[test]
fn imperative_context_reads_back_what_was_inserted() {
    let mut ctx: FlowContext<u64, fn() -> u64> = FlowContext::new();
    assert!(!ctx.contains_component("multiplier_config"));
    ctx.insert_singleton("multiplier_config", 100);
    let make: fn() -> u64 = || 7;
    ctx.insert_factory("request_id", make);
    assert!(ctx.contains_component("multiplier_config"));
    assert_eq!(ctx.get_singleton_component("multiplier_config"), Some(&100));
    assert_eq!(ctx.create_component("request_id"), Some(7));
    assert!(ctx.get_factory_component("request_id").is_some());
    assert!(ctx.get_factory_component("multiplier_config").is_none());
}
