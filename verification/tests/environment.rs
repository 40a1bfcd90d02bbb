use sam::config::{Component, Config, Global};
use sam::environment::ConfigurableEnvironment;

fn component(name: &str, ctype: &str, deps: &[&str], start_by_default: bool) -> Component {
    Component {
        name: name.to_string(),
        component_type: ctype.to_string(),
        dependencies: deps.iter().map(|d| d.to_string()).collect(),
        start_by_default,
        ports: vec![],
        containers: vec![],
        network: None,
        image: Some("docker.io/library/busybox:latest".to_string()),
        command: None,
        entrypoint: None,
        environment: vec![],
        volumes: vec![],
    }
}

fn config(components: Vec<Component>) -> Config {
    Config {
        name: "env".to_string(),
        base: None,
        components,
        reset: vec![],
        global: Global {
            scripts: vec![],
            keep_running: false,
            delay: None,
            repeat: None,
            filter: None,
            skip: None,
            reset_once: false,
            force: false,
            module_dirs: vec![],
        },
    }
}

fn position(plan: &[String], name: &str) -> usize {
    plan.iter().position(|p| p == name).expect("name missing from plan")
}

#[test]
fn start_plan_orders_dependencies_first() {
    let cfg = config(vec![
        component("web", "container", &["db", "cache"], true),
        component("db", "container", &["net"], false),
        component("cache", "container", &[], false),
        component("net", "container", &[], false),
    ]);
    let env = ConfigurableEnvironment::new(&cfg);
    let plan = env.start_plan("web").expect("acyclic graph must resolve");
    assert_eq!(plan.len(), 4);
    assert!(position(&plan, "net") < position(&plan, "db"));
    assert!(position(&plan, "db") < position(&plan, "web"));
    assert!(position(&plan, "cache") < position(&plan, "web"));
}

#[test]
fn start_all_starts_dependencies_strictly_before_dependents() {
    let cfg = config(vec![
        component("c1", "container", &["c2"], true),
        component("c2", "container", &[], true),
    ]);
    let env = ConfigurableEnvironment::new(&cfg);
    let plan = env.start_all_plan().expect("acyclic graph must resolve");
    assert_eq!(plan.len(), 2);
    assert!(position(&plan, "c2") < position(&plan, "c1"));
}

#[test]
fn mutual_dependency_is_a_cycle_error() {
    // c1 -> c2 -> c1 must fail with a cycle error, not hang or pick an order
    let cfg = config(vec![
        component("c1", "container", &["c2"], true),
        component("c2", "container", &["c1"], false),
    ]);
    let env = ConfigurableEnvironment::new(&cfg);
    let err = env.start_plan("c1").expect_err("a cyclic graph cannot resolve");
    assert!(err.message().contains("Circular dependency"));
}

#[test]
fn start_plan_skips_already_running_dependencies() {
    let cfg = config(vec![
        component("web", "container", &["db"], true),
        component("db", "container", &[], false),
    ]);
    let mut env = ConfigurableEnvironment::new(&cfg);
    env.mark_started("db");
    let plan = env.start_plan("web").expect("graph must resolve");
    assert_eq!(plan, vec!["web".to_string()]);
}

#[test]
fn start_plan_is_idempotent_for_running_component() {
    let cfg = config(vec![component("db", "container", &[], true)]);
    let mut env = ConfigurableEnvironment::new(&cfg);
    env.mark_started("db");
    let plan = env.start_plan("db").expect("no work needed");
    assert!(plan.is_empty());
}

#[test]
fn unknown_component_is_a_config_error() {
    let cfg = config(vec![]);
    let env = ConfigurableEnvironment::new(&cfg);
    let err = env.start_plan("ghost").expect_err("unknown name");
    assert!(err.message().contains("not found"));
}

#[test]
fn stop_restores_running_set() {
    // stopping after starting leaves the set as it was; stopping something
    // never started is a no-op
    let cfg = config(vec![component("db", "container", &[], true)]);
    let mut env = ConfigurableEnvironment::new(&cfg);
    assert!(!env.component_is_running("db"));
    env.mark_started("db");
    assert!(env.component_is_running("db"));
    env.mark_stopped("db");
    assert!(!env.component_is_running("db"));
    env.mark_stopped("db");
    assert!(!env.component_is_running("db"));
    assert!(env.is_running.is_empty());
}

#[test]
fn stop_plan_orders_dependents_first() {
    let cfg = config(vec![
        component("web", "container", &["db"], true),
        component("db", "container", &[], true),
    ]);
    let mut env = ConfigurableEnvironment::new(&cfg);
    env.mark_started("db");
    env.mark_started("web");
    let plan = env.stop_plan("db").expect("must resolve");
    assert_eq!(plan.len(), 2);
    assert!(position(&plan, "web") < position(&plan, "db"));
}

#[test]
fn stop_plan_on_not_running_component_is_empty() {
    let cfg = config(vec![component("db", "container", &[], true)]);
    let env = ConfigurableEnvironment::new(&cfg);
    let plan = env.stop_plan("db").expect("idempotent");
    assert!(plan.is_empty());
}

#[test]
fn stop_all_plan_covers_the_running_set() {
    let cfg = config(vec![
        component("web", "container", &["db"], true),
        component("db", "container", &[], true),
        component("idle", "container", &[], false),
    ]);
    let mut env = ConfigurableEnvironment::new(&cfg);
    env.mark_started("db");
    env.mark_started("web");
    let plan = env.stop_all_plan().expect("must resolve");
    assert_eq!(plan.len(), 2);
    assert!(position(&plan, "web") < position(&plan, "db"));
}

#[test]
fn stop_on_drop_flag_toggles() {
    let cfg = config(vec![]);
    let mut env = ConfigurableEnvironment::new(&cfg);
    assert!(env.stop_on_drop);
    env.set_stop_on_drop(false);
    assert!(!env.stop_on_drop);
}

#[test]
fn start_all_leaves_non_default_components_alone() {
    let cfg = config(vec![
        component("web", "container", &[], true),
        component("debug-shell", "container", &[], false),
    ]);
    let env = ConfigurableEnvironment::new(&cfg);
    let plan = env.start_all_plan().expect("must resolve");
    assert_eq!(plan, vec!["web".to_string()]);
}

#[test]
fn stop_cycle_reports_the_stuck_components() {
    // both run and each depends on the other: neither may stop first
    let cfg = config(vec![
        component("a", "container", &["b"], true),
        component("b", "container", &["a"], true),
    ]);
    let mut env = ConfigurableEnvironment::new(&cfg);
    env.mark_started("a");
    env.mark_started("b");
    let err = env.stop_all_plan().expect_err("no stop order exists");
    assert!(err.message().contains("Circular dependency"));
}
