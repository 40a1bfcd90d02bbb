use sam::config::{Component, Container, Port, Volume};
use sam::drivers::{
    component_kind, container_run_args, container_stop_args, launch_steps, pid_file_name,
    pod_container_run_args, pod_create_args, pod_stop_args, process_launch_args, stderr_file_name,
    stdout_file_name, stop_steps, ComponentKind, DriverStep,
};
use sam::Error;

fn base_component(name: &str, ctype: &str) -> Component {
    Component {
        name: name.to_string(),
        component_type: ctype.to_string(),
        dependencies: vec![],
        start_by_default: true,
        ports: vec![],
        containers: vec![],
        network: None,
        image: None,
        command: None,
        entrypoint: None,
        environment: vec![],
        volumes: vec![],
    }
}

#[test]
fn container_args_list_everything_in_order() {
    let mut c = base_component("caddy", "container");
    c.image = Some("docker.io/library/caddy:latest".to_string());
    c.command = Some(vec!["caddy".to_string(), "file-server".to_string()]);
    c.ports = vec![Port { host: 8080, container: 80 }];
    c.volumes = vec![Volume { host: "./assets".to_string(), container: "/srv".to_string() }];
    c.environment = vec!["CADDY_ADMIN_PORT=2019".to_string()];
    c.network = Some("samnet".to_string());
    c.entrypoint = Some("/entry".to_string());
    let args = container_run_args(&c).expect("an image is declared");
    assert_eq!(
        args,
        vec![
            "run",
            "-d",
            "--replace",
            "--name",
            "caddy",
            "-v",
            "./assets:/srv:z",
            "-e",
            "CADDY_ADMIN_PORT=2019",
            "--network=samnet",
            "-p",
            "8080:80",
            "--entrypoint",
            "/entry",
            "docker.io/library/caddy:latest",
            "caddy",
            "file-server",
        ]
    );
}

#[test]
fn container_without_image_is_a_config_error() {
    let c = base_component("noimg", "container");
    let err = container_run_args(&c).expect_err("no image declared");
    assert!(matches!(err, Error::Config(_)));
}

#[test]
fn pod_args_use_the_default_network() {
    let mut c = base_component("workers", "pod");
    c.ports = vec![Port { host: 9000, container: 9000 }];
    let args = pod_create_args(&c);
    assert_eq!(
        args,
        vec!["pod", "create", "--replace", "--name", "workers", "--network=samnet", "-p=9000:9000"]
    );
}

#[test]
fn pod_sub_container_attaches_to_the_pod() {
    let ct = Container {
        name: "worker-1".to_string(),
        image: "worker:1".to_string(),
        command: vec!["serve".to_string()],
        entrypoint: None,
        environment: vec!["MODE=fast".to_string()],
        volumes: vec![Volume { host: "/data".to_string(), container: "/var/data".to_string() }],
        network: None,
    };
    let args = pod_container_run_args("workers", &ct);
    assert_eq!(
        args,
        vec![
            "run",
            "-d",
            "--pod",
            "workers",
            "--name",
            "worker-1",
            "-v",
            "/data:/var/data",
            "-e",
            "MODE=fast",
            "worker:1",
            "serve",
        ]
    );
}

#[test]
fn stop_args_remove_forcibly() {
    assert_eq!(container_stop_args("caddy"), vec!["rm", "-f", "-t=0", "caddy"]);
    assert_eq!(pod_stop_args("workers"), vec!["pod", "rm", "-f", "-t=0", "workers"]);
}

#[test]
fn process_launch_uses_the_declared_argv() {
    let mut c = base_component("job", "process");
    c.command = Some(vec!["python3".to_string(), "job.py".to_string()]);
    let args = process_launch_args(&c).expect("a command is declared");
    assert_eq!(args, vec!["python3", "job.py"]);
}

#[test]
fn process_without_command_is_a_config_error() {
    let none = base_component("job", "process");
    assert!(matches!(process_launch_args(&none), Err(Error::Config(_))));
    let mut empty = base_component("job", "process");
    empty.command = Some(vec![]);
    assert!(matches!(process_launch_args(&empty), Err(Error::Config(_))));
}

#[test]
fn runtime_state_files_are_keyed_by_component() {
    assert_eq!(pid_file_name("job"), "job.pid");
    assert_eq!(stdout_file_name("job"), "job.stdout");
    assert_eq!(stderr_file_name("job"), "job.stderr");
}

#[test]
fn component_kind_dispatches_on_the_declared_type() {
    assert_eq!(
        component_kind(&base_component("a", "container")).expect("known"),
        ComponentKind::Container
    );
    assert_eq!(component_kind(&base_component("a", "pod")).expect("known"), ComponentKind::Pod);
    assert_eq!(
        component_kind(&base_component("a", "process")).expect("known"),
        ComponentKind::Process
    );
    let err = component_kind(&base_component("a", "vm")).expect_err("unknown type");
    assert!(err.message().contains("Unknown component type"));
}

#[test]
fn error_variants_carry_their_text() {
    assert_eq!(Error::Podman("no such image".to_string()).message(), "no such image");
    assert_eq!(Error::Other("misc".to_string()).message(), "misc");
    assert_eq!(Error::Config("bad".to_string()).message(), "bad");
    assert_eq!(Error::Process("gone".to_string()).message(), "gone");
    assert_eq!(Error::Test("failed".to_string()).message(), "failed");
}

#[test]
fn launch_steps_for_a_pod_cover_network_pod_and_containers() {
    let mut pod = base_component("workers", "pod");
    pod.containers = vec![Container {
        name: "worker-1".to_string(),
        image: "worker:1".to_string(),
        command: vec![],
        entrypoint: None,
        environment: vec![],
        volumes: vec![],
        network: None,
    }];
    let steps = launch_steps(&pod).expect("a pod always launches");
    assert_eq!(steps.len(), 3);
    assert!(matches!(steps[0], DriverStep::EnsureNetwork));
    match &steps[1] {
        DriverStep::Podman(args) => assert_eq!(args[0], "pod"),
        other => panic!("expected a pod create invocation, got {:?}", other),
    }
    match &steps[2] {
        DriverStep::Podman(args) => {
            assert_eq!(args[0], "run");
            assert!(args.contains(&"worker-1".to_string()));
        },
        other => panic!("expected a container run invocation, got {:?}", other),
    }
}

#[test]
fn stop_steps_match_the_component_kind() {
    let mut container = base_component("db", "container");
    container.image = Some("postgres:15".to_string());
    let steps = stop_steps(&container).expect("known kind");
    assert_eq!(steps.len(), 1);
    match &steps[0] {
        DriverStep::Podman(args) => assert_eq!(args, &vec!["rm", "-f", "-t=0", "db"]),
        other => panic!("expected a remove invocation, got {:?}", other),
    }
    let process = {
        let mut c = base_component("job", "process");
        c.command = Some(vec!["sleep".to_string()]);
        c
    };
    let steps = stop_steps(&process).expect("known kind");
    match &steps[0] {
        DriverStep::KillProcess(name) => assert_eq!(name, "job"),
        other => panic!("expected a process termination, got {:?}", other),
    }
}
