//! The resource drivers' command lines: what launching or stopping a
//! container, a pod, or a bare process asks of the external tool or the
//! operating system, stated argument by argument.

use vstd::prelude::*;

use crate::config::{Component, ComponentView, Container, ContainerView, Port, VolumeView};
use crate::strutil::{spec_decimal, u64_to_string};
use crate::Error;

verus! {

/// The command-line arguments that mount the volumes: a `-v` flag and a
/// `host:container` mapping for each, with the given suffix appended.
pub open spec fn volume_args(vols: Seq<VolumeView>, suffix: Seq<char>) -> Seq<Seq<char>>
    decreases vols.len(),
{
    if vols.len() == 0 {
        Seq::<Seq<char>>::empty()
    } else {
        volume_args(vols.drop_last(), suffix) + seq![
            "-v"@,
            vols.last().host + seq![':'] + vols.last().container + suffix,
        ]
    }
}

/// The command-line arguments that set the environment variables: a `-e`
/// flag and the entry for each.
pub open spec fn env_args(envs: Seq<Seq<char>>) -> Seq<Seq<char>>
    decreases envs.len(),
{
    if envs.len() == 0 {
        Seq::<Seq<char>>::empty()
    } else {
        env_args(envs.drop_last()) + seq!["-e"@, envs.last()]
    }
}

/// The command-line arguments that publish the ports: a `-p` flag and a
/// `host:container` pair for each.
pub open spec fn port_args(ports: Seq<Port>) -> Seq<Seq<char>>
    decreases ports.len(),
{
    if ports.len() == 0 {
        Seq::<Seq<char>>::empty()
    } else {
        port_args(ports.drop_last()) + seq![
            "-p"@,
            spec_decimal(ports.last().host as nat) + seq![':'] + spec_decimal(
                ports.last().container as nat,
            ),
        ]
    }
}

/// The pod-style port mappings: one `-p=host:container` argument for each.
pub open spec fn pod_port_args(ports: Seq<Port>) -> Seq<Seq<char>>
    decreases ports.len(),
{
    if ports.len() == 0 {
        Seq::<Seq<char>>::empty()
    } else {
        pod_port_args(ports.drop_last()) + seq![
            "-p="@ + spec_decimal(ports.last().host as nat) + seq![':'] + spec_decimal(
                ports.last().container as nat,
            ),
        ]
    }
}

/// The `--network=` argument, when a network is declared.
pub open spec fn network_args(network: Option<Seq<char>>) -> Seq<Seq<char>> {
    match network {
        Some(n) => seq!["--network="@ + n],
        None => Seq::<Seq<char>>::empty(),
    }
}

/// The `--entrypoint` arguments, when an entrypoint is declared.
pub open spec fn entrypoint_args(entrypoint: Option<Seq<char>>) -> Seq<Seq<char>> {
    match entrypoint {
        Some(e) => seq!["--entrypoint"@, e],
        None => Seq::<Seq<char>>::empty(),
    }
}

/// The arguments launching a container component: a detached, replaceable,
/// named run with its volumes, environment, network, ports, entrypoint,
/// image and command, in that order.
pub open spec fn container_run_args_spec(c: ComponentView) -> Seq<Seq<char>> {
    seq!["run"@, "-d"@, "--replace"@, "--name"@, c.name] + volume_args(c.volumes, ":z"@)
        + env_args(c.environment) + network_args(c.network) + port_args(c.ports)
        + entrypoint_args(c.entrypoint) + seq![c.image.unwrap()] + (match c.command {
        Some(cmd) => cmd,
        None => Seq::<Seq<char>>::empty(),
    })
}

/// The arguments creating a pod: replaceable, named, on the declared network
/// or the default one, with its port mappings.
pub open spec fn pod_create_args_spec(c: ComponentView) -> Seq<Seq<char>> {
    seq!["pod"@, "create"@, "--replace"@, "--name"@, c.name, "--network="@ + (match c.network {
        Some(n) => n,
        None => "samnet"@,
    })] + pod_port_args(c.ports)
}

/// The arguments launching one sub-container inside a pod: a detached run
/// attached to the pod, with the sub-container's volumes, environment,
/// entrypoint, network, image and command, in that order.
pub open spec fn pod_container_run_args_spec(pod_name: Seq<char>, ct: ContainerView) -> Seq<
    Seq<char>,
> {
    seq!["run"@, "-d"@, "--pod"@, pod_name, "--name"@, ct.name] + volume_args(
        ct.volumes,
        Seq::<char>::empty(),
    ) + env_args(ct.environment) + entrypoint_args(ct.entrypoint) + network_args(ct.network)
        + seq![ct.image] + ct.command
}

/// The arguments forcibly removing a container by name, with no grace time.
pub open spec fn container_stop_args_spec(name: Seq<char>) -> Seq<Seq<char>> {
    seq!["rm"@, "-f"@, "-t=0"@, name]
}

/// The arguments forcibly removing a pod by name, with no grace time.
pub open spec fn pod_stop_args_spec(name: Seq<char>) -> Seq<Seq<char>> {
    seq!["pod"@, "rm"@, "-f"@, "-t=0"@, name]
}

fn push_string(args: &mut Vec<String>, s: String)
    ensures
        final(args).deep_view() == old(args).deep_view().push(s@),
{
    let ghost before = args.deep_view();
    args.push(s);
    proof {
        assert(args.deep_view() =~= before.push(s@));
    }
}

fn push_str(args: &mut Vec<String>, s: &str)
    ensures
        final(args).deep_view() == old(args).deep_view().push(s@),
{
    push_string(args, s.to_owned());
}

/// Renders `host:container` for a port mapping.
fn port_pair(p: Port) -> (r: String)
    ensures
        r@ == spec_decimal(p.host as nat) + seq![':'] + spec_decimal(p.container as nat),
{
    proof {
        reveal_strlit(":");
        assert(":"@ =~= seq![':']);
    }
    let mut s = u64_to_string(p.host as u64);
    s.append(":");
    let c = u64_to_string(p.container as u64);
    s.append(c.as_str());
    s
}

fn append_volume_args(args: &mut Vec<String>, vols: &Vec<crate::config::Volume>, z_suffix: bool)
    ensures
        final(args).deep_view() == old(args).deep_view() + volume_args(
            vols.deep_view(),
            if z_suffix {
                ":z"@
            } else {
                Seq::<char>::empty()
            },
        ),
{
    let ghost base = args.deep_view();
    let ghost vv = vols.deep_view();
    let ghost suffix: Seq<char> = if z_suffix {
        ":z"@
    } else {
        Seq::<char>::empty()
    };
    proof {
        reveal_strlit(":");
        assert(":"@ =~= seq![':']);
        assert(base + volume_args(vv.take(0), suffix) =~= base);
    }
    let mut i: usize = 0;
    while i < vols.len()
        invariant
            vv == vols.deep_view(),
            vv.len() == vols@.len(),
            0 <= i <= vv.len(),
            ":"@ == seq![':'],
            suffix == if z_suffix {
                ":z"@
            } else {
                Seq::<char>::empty()
            },
            args.deep_view() == base + volume_args(vv.take(i as int), suffix),
        decreases vols@.len() - i,
    {
        push_str(args, "-v");
        let v = &vols[i];
        let mut m = v.host.clone();
        m.append(":");
        m.append(v.container.as_str());
        if z_suffix {
            m.append(":z");
        }
        proof {
            assert(vv[i as int] == vols@[i as int].deep_view());
            assert(m@ =~= vv[i as int].host + seq![':'] + vv[i as int].container + suffix);
        }
        push_string(args, m);
        proof {
            assert(vv.take(i + 1).drop_last() =~= vv.take(i as int));
            assert(vv.take(i + 1).last() == vv[i as int]);
            assert(args.deep_view() =~= base + volume_args(vv.take(i + 1), suffix));
        }
        i = i + 1;
    }
    proof {
        assert(vv.take(vv.len() as int) =~= vv);
    }
}

fn append_env_args(args: &mut Vec<String>, envs: &Vec<String>)
    ensures
        final(args).deep_view() == old(args).deep_view() + env_args(envs.deep_view()),
{
    let ghost base = args.deep_view();
    let ghost ev = envs.deep_view();
    proof {
        assert(base + env_args(ev.take(0)) =~= base);
    }
    let mut i: usize = 0;
    while i < envs.len()
        invariant
            ev == envs.deep_view(),
            ev.len() == envs@.len(),
            0 <= i <= ev.len(),
            args.deep_view() == base + env_args(ev.take(i as int)),
        decreases envs@.len() - i,
    {
        push_str(args, "-e");
        push_string(args, envs[i].clone());
        proof {
            assert(ev[i as int] == envs@[i as int]@);
            assert(ev.take(i + 1).drop_last() =~= ev.take(i as int));
            assert(ev.take(i + 1).last() == ev[i as int]);
            assert(args.deep_view() =~= base + env_args(ev.take(i + 1)));
        }
        i = i + 1;
    }
    proof {
        assert(ev.take(ev.len() as int) =~= ev);
    }
}

fn append_port_args(args: &mut Vec<String>, ports: &Vec<Port>)
    ensures
        final(args).deep_view() == old(args).deep_view() + port_args(ports@),
{
    let ghost base = args.deep_view();
    proof {
        assert(base + port_args(ports@.take(0)) =~= base);
    }
    let mut i: usize = 0;
    while i < ports.len()
        invariant
            0 <= i <= ports@.len(),
            args.deep_view() == base + port_args(ports@.take(i as int)),
        decreases ports@.len() - i,
    {
        push_str(args, "-p");
        let m = port_pair(ports[i]);
        push_string(args, m);
        proof {
            assert(ports@.take(i + 1).drop_last() =~= ports@.take(i as int));
            assert(ports@.take(i + 1).last() == ports@[i as int]);
            assert(args.deep_view() =~= base + port_args(ports@.take(i + 1)));
        }
        i = i + 1;
    }
    proof {
        assert(ports@.take(ports@.len() as int) =~= ports@);
    }
}

fn append_pod_port_args(args: &mut Vec<String>, ports: &Vec<Port>)
    ensures
        final(args).deep_view() == old(args).deep_view() + pod_port_args(ports@),
{
    let ghost base = args.deep_view();
    proof {
        reveal_strlit("-p=");
        assert(base + pod_port_args(ports@.take(0)) =~= base);
    }
    let mut i: usize = 0;
    while i < ports.len()
        invariant
            0 <= i <= ports@.len(),
            args.deep_view() == base + pod_port_args(ports@.take(i as int)),
        decreases ports@.len() - i,
    {
        let mut m = "-p=".to_owned();
        let pair = port_pair(ports[i]);
        m.append(pair.as_str());
        push_string(args, m);
        proof {
            assert(m@ =~= "-p="@ + spec_decimal(ports@[i as int].host as nat) + seq![':']
                + spec_decimal(ports@[i as int].container as nat));
            assert(ports@.take(i + 1).drop_last() =~= ports@.take(i as int));
            assert(ports@.take(i + 1).last() == ports@[i as int]);
            assert(args.deep_view() =~= base + pod_port_args(ports@.take(i + 1)));
        }
        i = i + 1;
    }
    proof {
        assert(ports@.take(ports@.len() as int) =~= ports@);
    }
}

fn append_network_args(args: &mut Vec<String>, network: &Option<String>)
    ensures
        final(args).deep_view() == old(args).deep_view() + network_args(network.deep_view()),
{
    let ghost base = args.deep_view();
    match network {
        Some(n) => {
            let mut m = "--network=".to_owned();
            m.append(n.as_str());
            push_string(args, m);
            proof {
                assert(args.deep_view() =~= base + network_args(network.deep_view()));
            }
        },
        None => {
            proof {
                assert(args.deep_view() =~= base + network_args(network.deep_view()));
            }
        },
    }
}

fn append_entrypoint_args(args: &mut Vec<String>, entrypoint: &Option<String>)
    ensures
        final(args).deep_view() == old(args).deep_view() + entrypoint_args(
            entrypoint.deep_view(),
        ),
{
    let ghost base = args.deep_view();
    match entrypoint {
        Some(e) => {
            push_str(args, "--entrypoint");
            push_string(args, e.clone());
            proof {
                assert(args.deep_view() =~= base + entrypoint_args(entrypoint.deep_view()));
            }
        },
        None => {
            proof {
                assert(args.deep_view() =~= base + entrypoint_args(entrypoint.deep_view()));
            }
        },
    }
}

fn append_strings(args: &mut Vec<String>, extra: &Vec<String>)
    ensures
        final(args).deep_view() == old(args).deep_view() + extra.deep_view(),
{
    let ghost base = args.deep_view();
    let ghost xv = extra.deep_view();
    proof {
        assert(base + xv.take(0) =~= base);
    }
    let mut i: usize = 0;
    while i < extra.len()
        invariant
            xv == extra.deep_view(),
            xv.len() == extra@.len(),
            0 <= i <= xv.len(),
            args.deep_view() == base + xv.take(i as int),
        decreases extra@.len() - i,
    {
        push_string(args, extra[i].clone());
        proof {
            assert(xv[i as int] == extra@[i as int]@);
            assert(args.deep_view() =~= base + xv.take(i + 1));
        }
        i = i + 1;
    }
    proof {
        assert(xv.take(xv.len() as int) =~= xv);
    }
}

/// The external-tool arguments that launch a container component, as
/// `container_run_args_spec` states; a component without an image is a
/// configuration error.
pub fn container_run_args(c: &Component) -> (r: Result<Vec<String>, Error>)
    ensures
        c.deep_view().image is Some ==> (r matches Ok(args) && args.deep_view()
            == container_run_args_spec(c.deep_view())),
        c.deep_view().image is None ==> (r matches Err(e) && e is Config),
{
    let image = match &c.image {
        Some(im) => im.clone(),
        None => {
            let mut msg = String::new();
            msg.append("Image not specified for component ");
            msg.append(c.name.as_str());
            return Err(Error::Config(msg));
        },
    };
    let mut args: Vec<String> = Vec::new();
    push_str(&mut args, "run");
    push_str(&mut args, "-d");
    push_str(&mut args, "--replace");
    push_str(&mut args, "--name");
    push_string(&mut args, c.name.clone());
    let ghost head = seq!["run"@, "-d"@, "--replace"@, "--name"@, c.deep_view().name];
    proof {
        assert(args.deep_view() =~= head);
    }
    append_volume_args(&mut args, &c.volumes, true);
    append_env_args(&mut args, &c.environment);
    append_network_args(&mut args, &c.network);
    append_port_args(&mut args, &c.ports);
    append_entrypoint_args(&mut args, &c.entrypoint);
    push_string(&mut args, image);
    match &c.command {
        Some(cmd) => {
            append_strings(&mut args, cmd);
        },
        None => {},
    }
    proof {
        assert(c.ports.deep_view() =~= c.ports@);
        assert(args.deep_view() =~= container_run_args_spec(c.deep_view()));
    }
    Ok(args)
}

/// The external-tool arguments that create a pod component's pod, as
/// `pod_create_args_spec` states.
pub fn pod_create_args(c: &Component) -> (r: Vec<String>)
    ensures
        r.deep_view() == pod_create_args_spec(c.deep_view()),
{
    let mut args: Vec<String> = Vec::new();
    push_str(&mut args, "pod");
    push_str(&mut args, "create");
    push_str(&mut args, "--replace");
    push_str(&mut args, "--name");
    push_string(&mut args, c.name.clone());
    let mut net = "--network=".to_owned();
    match &c.network {
        Some(n) => {
            net.append(n.as_str());
        },
        None => {
            net.append("samnet");
        },
    }
    push_string(&mut args, net);
    append_pod_port_args(&mut args, &c.ports);
    proof {
        assert(c.ports.deep_view() =~= c.ports@);
        assert(args.deep_view() =~= pod_create_args_spec(c.deep_view()));
    }
    args
}

/// The external-tool arguments that launch one sub-container of a pod, as
/// `pod_container_run_args_spec` states.
pub fn pod_container_run_args(pod_name: &str, ct: &Container) -> (r: Vec<String>)
    ensures
        r.deep_view() == pod_container_run_args_spec(pod_name@, ct.deep_view()),
{
    let mut args: Vec<String> = Vec::new();
    push_str(&mut args, "run");
    push_str(&mut args, "-d");
    push_str(&mut args, "--pod");
    push_str(&mut args, pod_name);
    push_str(&mut args, "--name");
    push_string(&mut args, ct.name.clone());
    let ghost head = seq!["run"@, "-d"@, "--pod"@, pod_name@, "--name"@, ct.deep_view().name];
    proof {
        assert(args.deep_view() =~= head);
    }
    append_volume_args(&mut args, &ct.volumes, false);
    append_env_args(&mut args, &ct.environment);
    append_entrypoint_args(&mut args, &ct.entrypoint);
    append_network_args(&mut args, &ct.network);
    push_string(&mut args, ct.image.clone());
    append_strings(&mut args, &ct.command);
    proof {
        assert(args.deep_view() =~= pod_container_run_args_spec(pod_name@, ct.deep_view()));
    }
    args
}

/// The external-tool arguments that forcibly remove a container.
pub fn container_stop_args(name: &str) -> (r: Vec<String>)
    ensures
        r.deep_view() == container_stop_args_spec(name@),
{
    let mut args: Vec<String> = Vec::new();
    push_str(&mut args, "rm");
    push_str(&mut args, "-f");
    push_str(&mut args, "-t=0");
    push_str(&mut args, name);
    proof {
        assert(args.deep_view() =~= container_stop_args_spec(name@));
    }
    args
}

/// The external-tool arguments that forcibly remove a pod, sub-containers
/// included.
pub fn pod_stop_args(name: &str) -> (r: Vec<String>)
    ensures
        r.deep_view() == pod_stop_args_spec(name@),
{
    let mut args: Vec<String> = Vec::new();
    push_str(&mut args, "pod");
    push_str(&mut args, "rm");
    push_str(&mut args, "-f");
    push_str(&mut args, "-t=0");
    push_str(&mut args, name);
    proof {
        assert(args.deep_view() =~= pod_stop_args_spec(name@));
    }
    args
}

/// The argv that launches a process component; a missing or empty command
/// is a configuration error.
pub fn process_launch_args(c: &Component) -> (r: Result<Vec<String>, Error>)
    ensures
        match c.deep_view().command {
            Some(cmd) => if cmd.len() > 0 {
                r matches Ok(args) && args.deep_view() == cmd
            } else {
                r matches Err(e) && e is Config
            },
            None => r matches Err(e) && e is Config,
        },
{
    match &c.command {
        Some(cmd) => {
            if cmd.len() == 0 {
                let mut msg = String::new();
                msg.append("Command is empty for component ");
                msg.append(c.name.as_str());
                Err(Error::Config(msg))
            } else {
                let mut args: Vec<String> = Vec::new();
                append_strings(&mut args, cmd);
                proof {
                    assert(Seq::<Seq<char>>::empty() + cmd.deep_view() =~= cmd.deep_view());
                }
                Ok(args)
            }
        },
        None => {
            let mut msg = String::new();
            msg.append("Command not specified for component ");
            msg.append(c.name.as_str());
            Err(Error::Config(msg))
        },
    }
}

/// The name of the file that keeps a process component's process id.
pub fn pid_file_name(name: &str) -> (r: String)
    ensures
        r@ == name@ + ".pid"@,
{
    let mut s = name.to_owned();
    s.append(".pid");
    s
}

/// The name of the file capturing a process component's standard output.
pub fn stdout_file_name(name: &str) -> (r: String)
    ensures
        r@ == name@ + ".stdout"@,
{
    let mut s = name.to_owned();
    s.append(".stdout");
    s
}

/// The name of the file capturing a process component's standard error.
pub fn stderr_file_name(name: &str) -> (r: String)
    ensures
        r@ == name@ + ".stderr"@,
{
    let mut s = name.to_owned();
    s.append(".stderr");
    s
}

/// The kind of resource a component declares.
#[derive(Clone, Copy, PartialEq, Eq, Structural, Debug)]
pub enum ComponentKind {
    Container,
    Pod,
    Process,
}

/// One step of launching or stopping a component: making sure the shared
/// network exists, an external-tool invocation, spawning a child process, or
/// terminating the process recorded for a component.
#[derive(Debug)]
pub enum DriverStep {
    EnsureNetwork,
    Podman(Vec<String>),
    SpawnProcess(Vec<String>),
    KillProcess(String),
}

/// Whether the step is an external-tool invocation with these arguments.
pub open spec fn is_podman_step(s: DriverStep, args: Seq<Seq<char>>) -> bool {
    s matches DriverStep::Podman(a) && a.deep_view() == args
}

/// Whether the step spawns a child process with this argv.
pub open spec fn is_spawn_step(s: DriverStep, argv: Seq<Seq<char>>) -> bool {
    s matches DriverStep::SpawnProcess(a) && a.deep_view() == argv
}

/// Whether the step terminates the process recorded for this component.
pub open spec fn is_kill_step(s: DriverStep, name: Seq<char>) -> bool {
    s matches DriverStep::KillProcess(n) && n@ == name
}

/// Which driver a component's declared type selects; an unknown type is a
/// configuration error.
pub fn component_kind(c: &Component) -> (r: Result<ComponentKind, Error>)
    ensures
        c.deep_view().component_type == "container"@ ==> r == Ok::<ComponentKind, Error>(
            ComponentKind::Container,
        ),
        c.deep_view().component_type == "pod"@ ==> r == Ok::<ComponentKind, Error>(
            ComponentKind::Pod,
        ),
        c.deep_view().component_type == "process"@ ==> r == Ok::<ComponentKind, Error>(
            ComponentKind::Process,
        ),
        c.deep_view().component_type != "container"@ && c.deep_view().component_type != "pod"@
            && c.deep_view().component_type != "process"@ ==> (r matches Err(e) && e is Config),
{
    proof {
        reveal_strlit("container");
        reveal_strlit("pod");
        reveal_strlit("process");
        assert("container"@.len() == 9);
        assert("pod"@.len() == 3);
        assert("process"@.len() == 7);
    }
    let t = c.component_type.as_str();
    if crate::strutil::str_eq(t, "container") {
        Ok(ComponentKind::Container)
    } else if crate::strutil::str_eq(t, "pod") {
        Ok(ComponentKind::Pod)
    } else if crate::strutil::str_eq(t, "process") {
        Ok(ComponentKind::Process)
    } else {
        let mut msg = String::new();
        msg.append("Unknown component type: ");
        msg.append(t);
        Err(Error::Config(msg))
    }
}

/// The steps that launch a component, by its declared kind: a container is
/// one detached run; a pod needs the shared network, its pod resource, then
/// one run per sub-container; a process is one spawn. A missing image or
/// command, or an unknown type, is a configuration error.
pub fn launch_steps(c: &Component) -> (r: Result<Vec<DriverStep>, Error>)
    ensures
        c.deep_view().component_type == "container"@ && c.deep_view().image is Some ==> (
        r matches Ok(steps) && steps@.len() == 1 && is_podman_step(
            steps@[0],
            container_run_args_spec(c.deep_view()),
        )),
        c.deep_view().component_type == "container"@ && c.deep_view().image is None ==> (
        r matches Err(e) && e is Config),
        c.deep_view().component_type == "pod"@ ==> (r matches Ok(steps) && {
            &&& steps@.len() == 2 + c.deep_view().containers.len()
            &&& steps@[0] is EnsureNetwork
            &&& is_podman_step(steps@[1], pod_create_args_spec(c.deep_view()))
            &&& forall|i: int|
                0 <= i < c.deep_view().containers.len() ==> is_podman_step(
                    #[trigger] steps@[2 + i],
                    pod_container_run_args_spec(
                        c.deep_view().name,
                        c.deep_view().containers[i],
                    ),
                )
        }),
        c.deep_view().component_type == "process"@ ==> (match c.deep_view().command {
            Some(cmd) => if cmd.len() > 0 {
                r matches Ok(steps) && steps@.len() == 1 && is_spawn_step(steps@[0], cmd)
            } else {
                r matches Err(e) && e is Config
            },
            None => r matches Err(e) && e is Config,
        }),
        c.deep_view().component_type != "container"@ && c.deep_view().component_type != "pod"@
            && c.deep_view().component_type != "process"@ ==> (r matches Err(e) && e is Config),
{
    match component_kind(c)? {
        ComponentKind::Container => {
            let args = container_run_args(c)?;
            let mut steps: Vec<DriverStep> = Vec::new();
            steps.push(DriverStep::Podman(args));
            Ok(steps)
        },
        ComponentKind::Pod => {
            let mut steps: Vec<DriverStep> = Vec::new();
            steps.push(DriverStep::EnsureNetwork);
            steps.push(DriverStep::Podman(pod_create_args(c)));
            let ghost cv = c.deep_view();
            let mut i: usize = 0;
            while i < c.containers.len()
                invariant
                    cv == c.deep_view(),
                    cv.containers.len() == c.containers@.len(),
                    0 <= i <= c.containers@.len(),
                    steps@.len() == 2 + i,
                    steps@[0] is EnsureNetwork,
                    is_podman_step(steps@[1], pod_create_args_spec(cv)),
                    forall|j: int|
                        0 <= j < i ==> is_podman_step(
                            #[trigger] steps@[2 + j],
                            pod_container_run_args_spec(cv.name, cv.containers[j]),
                        ),
                decreases c.containers@.len() - i,
            {
                let args = pod_container_run_args(c.name.as_str(), &c.containers[i]);
                proof {
                    assert(cv.containers[i as int] == c.containers@[i as int].deep_view());
                }
                steps.push(DriverStep::Podman(args));
                i = i + 1;
            }
            Ok(steps)
        },
        ComponentKind::Process => {
            let argv = process_launch_args(c)?;
            let mut steps: Vec<DriverStep> = Vec::new();
            steps.push(DriverStep::SpawnProcess(argv));
            Ok(steps)
        },
    }
}

/// The steps that stop a component, by its declared kind: a container or pod
/// is forcibly removed, a process has its recorded process id terminated.
/// An unknown type is a configuration error.
pub fn stop_steps(c: &Component) -> (r: Result<Vec<DriverStep>, Error>)
    ensures
        c.deep_view().component_type == "container"@ ==> (r matches Ok(steps) && steps@.len()
            == 1 && is_podman_step(steps@[0], container_stop_args_spec(c.deep_view().name))),
        c.deep_view().component_type == "pod"@ ==> (r matches Ok(steps) && steps@.len() == 1
            && is_podman_step(steps@[0], pod_stop_args_spec(c.deep_view().name))),
        c.deep_view().component_type == "process"@ ==> (r matches Ok(steps) && steps@.len() == 1
            && is_kill_step(steps@[0], c.deep_view().name)),
        c.deep_view().component_type != "container"@ && c.deep_view().component_type != "pod"@
            && c.deep_view().component_type != "process"@ ==> (r matches Err(e) && e is Config),
{
    match component_kind(c)? {
        ComponentKind::Container => {
            let mut steps: Vec<DriverStep> = Vec::new();
            steps.push(DriverStep::Podman(container_stop_args(c.name.as_str())));
            Ok(steps)
        },
        ComponentKind::Pod => {
            let mut steps: Vec<DriverStep> = Vec::new();
            steps.push(DriverStep::Podman(pod_stop_args(c.name.as_str())));
            Ok(steps)
        },
        ComponentKind::Process => {
            let mut steps: Vec<DriverStep> = Vec::new();
            steps.push(DriverStep::KillProcess(c.name.clone()));
            Ok(steps)
        },
    }
}

} // verus!
