use sam::config::{Component, Config, Global};

fn component(name: &str, image: &str) -> Component {
    Component {
        name: name.to_string(),
        component_type: "container".to_string(),
        dependencies: vec![],
        start_by_default: false,
        ports: vec![],
        containers: vec![],
        network: None,
        image: Some(image.to_string()),
        command: None,
        entrypoint: None,
        environment: vec![],
        volumes: vec![],
    }
}

fn base_config() -> Config {
    Config {
        name: "base".to_string(),
        base: None,
        components: vec![component("db", "postgres:15"), component("web", "caddy:2")],
        reset: vec!["echo reset".to_string()],
        global: Global {
            scripts: vec!["tests/base.rhai".to_string()],
            keep_running: false,
            delay: None,
            repeat: None,
            filter: None,
            skip: None,
            reset_once: false,
            force: false,
            module_dirs: vec![],
        },
    }
}

fn overlay_config() -> Config {
    Config {
        name: "overlay".to_string(),
        base: Some("base.yaml".to_string()),
        components: vec![component("web", "caddy:2.7"), component("cache", "redis:7")],
        reset: vec![],
        global: Global {
            scripts: vec![],
            keep_running: true,
            delay: Some("2s".to_string()),
            repeat: Some(3),
            filter: None,
            skip: Some("slow".to_string()),
            reset_once: true,
            force: false,
            module_dirs: vec!["mods".to_string()],
        },
    }
}

#[test]
fn merge_replaces_by_name_and_appends_new() {
    let merged = base_config().merge(&overlay_config()).expect("merge never fails");
    let names: Vec<&str> = merged.components.iter().map(|c| c.name.as_str()).collect();
    assert_eq!(names, vec!["db", "web", "cache"]);
    assert_eq!(merged.components[1].image.as_deref(), Some("caddy:2.7"));
    assert_eq!(merged.components[0].image.as_deref(), Some("postgres:15"));
}

#[test]
fn merge_keeps_base_identity() {
    let merged = base_config().merge(&overlay_config()).expect("merge never fails");
    assert_eq!(merged.name, "base");
    assert_eq!(merged.base, None);
    assert_eq!(merged.reset, vec!["echo reset".to_string()]);
}

#[test]
fn merge_takes_global_overrides_where_set() {
    let merged = base_config().merge(&overlay_config()).expect("merge never fails");
    // unset in the overlay: the base's scripts stay
    assert_eq!(merged.global.scripts, vec!["tests/base.rhai".to_string()]);
    // set in the overlay: taken over
    assert_eq!(merged.global.delay.as_deref(), Some("2s"));
    assert_eq!(merged.global.repeat, Some(3));
    assert_eq!(merged.global.skip.as_deref(), Some("slow"));
    assert_eq!(merged.global.module_dirs, vec!["mods".to_string()]);
    // flags combine with or
    assert!(merged.global.keep_running);
    assert!(merged.global.reset_once);
    assert!(!merged.global.force);
}

#[test]
fn get_component_finds_first_by_name() {
    let cfg = base_config();
    let web = cfg.get_component("web").expect("declared");
    assert_eq!(web.image.as_deref(), Some("caddy:2"));
    assert!(cfg.get_component("ghost").is_none());
}
