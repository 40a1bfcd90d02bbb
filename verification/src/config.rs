//! The declarative component graph: components with their types,
//! dependencies and launch parameters, and run-wide settings, with verified
//! layering of one configuration over another.

use vstd::prelude::*;

use crate::strutil::{clone_strings, str_eq};
use crate::Error;

verus! {

/// A host/container port mapping of a component.
#[derive(Clone, Copy, PartialEq, Eq, Structural, Debug)]
pub struct Port {
    pub host: u16,
    pub container: u16,
}

impl DeepView for Port {
    type V = Port;

    open spec fn deep_view(&self) -> Port {
        *self
    }
}

/// A host/container volume mapping of a component.
#[derive(Debug)]
pub struct Volume {
    pub host: String,
    pub container: String,
}

/// The mathematical value of a `Volume`.
#[verifier::ext_equal]
pub struct VolumeView {
    pub host: Seq<char>,
    pub container: Seq<char>,
}

impl DeepView for Volume {
    type V = VolumeView;

    open spec fn deep_view(&self) -> VolumeView {
        VolumeView { host: self.host@, container: self.container@ }
    }
}

/// A sub-container of a pod component.
#[derive(Debug)]
pub struct Container {
    pub name: String,
    pub image: String,
    pub command: Vec<String>,
    pub entrypoint: Option<String>,
    pub environment: Vec<String>,
    pub volumes: Vec<Volume>,
    pub network: Option<String>,
}

/// The mathematical value of a `Container`.
#[verifier::ext_equal]
pub struct ContainerView {
    pub name: Seq<char>,
    pub image: Seq<char>,
    pub command: Seq<Seq<char>>,
    pub entrypoint: Option<Seq<char>>,
    pub environment: Seq<Seq<char>>,
    pub volumes: Seq<VolumeView>,
    pub network: Option<Seq<char>>,
}

impl DeepView for Container {
    type V = ContainerView;

    open spec fn deep_view(&self) -> ContainerView {
        ContainerView {
            name: self.name@,
            image: self.image@,
            command: self.command.deep_view(),
            entrypoint: self.entrypoint.deep_view(),
            environment: self.environment.deep_view(),
            volumes: self.volumes.deep_view(),
            network: self.network.deep_view(),
        }
    }
}

/// A declared component of the environment: a container, a pod of
/// sub-containers, or a bare process.
#[derive(Debug)]
pub struct Component {
    pub name: String,
    pub component_type: String,
    pub dependencies: Vec<String>,
    pub start_by_default: bool,
    pub ports: Vec<Port>,
    pub containers: Vec<Container>,
    pub network: Option<String>,
    pub image: Option<String>,
    pub command: Option<Vec<String>>,
    pub entrypoint: Option<String>,
    pub environment: Vec<String>,
    pub volumes: Vec<Volume>,
}

/// The mathematical value of a `Component`.
#[verifier::ext_equal]
pub struct ComponentView {
    pub name: Seq<char>,
    pub component_type: Seq<char>,
    pub dependencies: Seq<Seq<char>>,
    pub start_by_default: bool,
    pub ports: Seq<Port>,
    pub containers: Seq<ContainerView>,
    pub network: Option<Seq<char>>,
    pub image: Option<Seq<char>>,
    pub command: Option<Seq<Seq<char>>>,
    pub entrypoint: Option<Seq<char>>,
    pub environment: Seq<Seq<char>>,
    pub volumes: Seq<VolumeView>,
}

impl DeepView for Component {
    type V = ComponentView;

    open spec fn deep_view(&self) -> ComponentView {
        ComponentView {
            name: self.name@,
            component_type: self.component_type@,
            dependencies: self.dependencies.deep_view(),
            start_by_default: self.start_by_default,
            ports: self.ports.deep_view(),
            containers: self.containers.deep_view(),
            network: self.network.deep_view(),
            image: self.image.deep_view(),
            command: self.command.deep_view(),
            entrypoint: self.entrypoint.deep_view(),
            environment: self.environment.deep_view(),
            volumes: self.volumes.deep_view(),
        }
    }
}

/// Run-wide settings.
#[derive(Debug)]
pub struct Global {
    pub scripts: Vec<String>,
    pub keep_running: bool,
    pub delay: Option<String>,
    pub repeat: Option<u64>,
    pub filter: Option<String>,
    pub skip: Option<String>,
    pub reset_once: bool,
    pub force: bool,
    pub module_dirs: Vec<String>,
}

/// The mathematical value of `Global`.
#[verifier::ext_equal]
pub struct GlobalView {
    pub scripts: Seq<Seq<char>>,
    pub keep_running: bool,
    pub delay: Option<Seq<char>>,
    pub repeat: Option<u64>,
    pub filter: Option<Seq<char>>,
    pub skip: Option<Seq<char>>,
    pub reset_once: bool,
    pub force: bool,
    pub module_dirs: Seq<Seq<char>>,
}

impl DeepView for Global {
    type V = GlobalView;

    open spec fn deep_view(&self) -> GlobalView {
        GlobalView {
            scripts: self.scripts.deep_view(),
            keep_running: self.keep_running,
            delay: self.delay.deep_view(),
            repeat: if self.repeat is Some {
                Some(self.repeat.unwrap())
            } else {
                None
            },
            filter: self.filter.deep_view(),
            skip: self.skip.deep_view(),
            reset_once: self.reset_once,
            force: self.force,
            module_dirs: self.module_dirs.deep_view(),
        }
    }
}

/// The declarative description of a whole environment.
#[derive(Debug)]
pub struct Config {
    pub name: String,
    pub base: Option<String>,
    pub components: Vec<Component>,
    pub reset: Vec<String>,
    pub global: Global,
}

/// The mathematical value of a `Config`.
#[verifier::ext_equal]
pub struct ConfigView {
    pub name: Seq<char>,
    pub base: Option<Seq<char>>,
    pub components: Seq<ComponentView>,
    pub reset: Seq<Seq<char>>,
    pub global: GlobalView,
}

impl DeepView for Config {
    type V = ConfigView;

    open spec fn deep_view(&self) -> ConfigView {
        ConfigView {
            name: self.name@,
            base: self.base.deep_view(),
            components: self.components.deep_view(),
            reset: self.reset.deep_view(),
            global: self.global.deep_view(),
        }
    }
}

fn clone_opt_string(o: &Option<String>) -> (r: Option<String>)
    ensures
        r == *o,
{
    match o {
        Some(s) => Some(s.clone()),
        None => None,
    }
}

impl Clone for Volume {
    fn clone(&self) -> (r: Self)
        ensures
            r.deep_view() == self.deep_view(),
    {
        let r = Volume { host: self.host.clone(), container: self.container.clone() };
        proof {
            assert(r.deep_view() =~= self.deep_view());
        }
        r
    }
}

fn clone_volumes(v: &Vec<Volume>) -> (r: Vec<Volume>)
    ensures
        r.deep_view() == v.deep_view(),
{
    let mut r: Vec<Volume> = Vec::new();
    let mut i: usize = 0;
    while i < v.len()
        invariant
            0 <= i <= v@.len(),
            r@.len() == i,
            forall|j: int| 0 <= j < i ==> r@[j].deep_view() == v@[j].deep_view(),
        decreases v@.len() - i,
    {
        r.push(v[i].clone());
        i = i + 1;
    }
    proof {
        assert forall|j: int| 0 <= j < v@.len() implies r.deep_view()[j] == v.deep_view()[j] by {
            assert(r.deep_view()[j] == r@[j].deep_view());
            assert(v.deep_view()[j] == v@[j].deep_view());
        }
        assert(r.deep_view() =~= v.deep_view());
    }
    r
}

fn clone_ports(v: &Vec<Port>) -> (r: Vec<Port>)
    ensures
        r@ == v@,
{
    let mut r: Vec<Port> = Vec::new();
    let mut i: usize = 0;
    while i < v.len()
        invariant
            0 <= i <= v@.len(),
            r@ == v@.take(i as int),
        decreases v@.len() - i,
    {
        r.push(v[i]);
        proof {
            assert(v@.take(i + 1) =~= v@.take(i as int).push(v@[i as int]));
        }
        i = i + 1;
    }
    proof {
        assert(v@.take(v@.len() as int) =~= v@);
    }
    r
}

impl Clone for Container {
    fn clone(&self) -> (r: Self)
        ensures
            r.deep_view() == self.deep_view(),
    {
        let r = Container {
            name: self.name.clone(),
            image: self.image.clone(),
            command: clone_strings(&self.command),
            entrypoint: clone_opt_string(&self.entrypoint),
            environment: clone_strings(&self.environment),
            volumes: clone_volumes(&self.volumes),
            network: clone_opt_string(&self.network),
        };
        proof {
            assert(r.deep_view() =~= self.deep_view());
        }
        r
    }
}

fn clone_containers(v: &Vec<Container>) -> (r: Vec<Container>)
    ensures
        r.deep_view() == v.deep_view(),
{
    let mut r: Vec<Container> = Vec::new();
    let mut i: usize = 0;
    while i < v.len()
        invariant
            0 <= i <= v@.len(),
            r@.len() == i,
            forall|j: int| 0 <= j < i ==> r@[j].deep_view() == v@[j].deep_view(),
        decreases v@.len() - i,
    {
        r.push(v[i].clone());
        i = i + 1;
    }
    proof {
        assert forall|j: int| 0 <= j < v@.len() implies r.deep_view()[j] == v.deep_view()[j] by {
            assert(r.deep_view()[j] == r@[j].deep_view());
            assert(v.deep_view()[j] == v@[j].deep_view());
        }
        assert(r.deep_view() =~= v.deep_view());
    }
    r
}

impl Clone for Component {
    fn clone(&self) -> (r: Self)
        ensures
            r.deep_view() == self.deep_view(),
    {
        let command = match &self.command {
            Some(c) => Some(clone_strings(c)),
            None => None,
        };
        let r = Component {
            name: self.name.clone(),
            component_type: self.component_type.clone(),
            dependencies: clone_strings(&self.dependencies),
            start_by_default: self.start_by_default,
            ports: clone_ports(&self.ports),
            containers: clone_containers(&self.containers),
            network: clone_opt_string(&self.network),
            image: clone_opt_string(&self.image),
            command,
            entrypoint: clone_opt_string(&self.entrypoint),
            environment: clone_strings(&self.environment),
            volumes: clone_volumes(&self.volumes),
        };
        proof {
            assert(r.deep_view() =~= self.deep_view());
        }
        r
    }
}

impl Clone for Global {
    fn clone(&self) -> (r: Self)
        ensures
            r.deep_view() == self.deep_view(),
    {
        let r = Global {
            scripts: clone_strings(&self.scripts),
            keep_running: self.keep_running,
            delay: clone_opt_string(&self.delay),
            repeat: self.repeat,
            filter: clone_opt_string(&self.filter),
            skip: clone_opt_string(&self.skip),
            reset_once: self.reset_once,
            force: self.force,
            module_dirs: clone_strings(&self.module_dirs),
        };
        proof {
            assert(r.deep_view() =~= self.deep_view());
        }
        r
    }
}

fn clone_components(v: &Vec<Component>) -> (r: Vec<Component>)
    ensures
        r.deep_view() == v.deep_view(),
{
    let mut r: Vec<Component> = Vec::new();
    let mut i: usize = 0;
    while i < v.len()
        invariant
            0 <= i <= v@.len(),
            r@.len() == i,
            forall|j: int| 0 <= j < i ==> r@[j].deep_view() == v@[j].deep_view(),
        decreases v@.len() - i,
    {
        r.push(v[i].clone());
        i = i + 1;
    }
    proof {
        assert forall|j: int| 0 <= j < v@.len() implies r.deep_view()[j] == v.deep_view()[j] by {
            assert(r.deep_view()[j] == r@[j].deep_view());
            assert(v.deep_view()[j] == v@[j].deep_view());
        }
        assert(r.deep_view() =~= v.deep_view());
    }
    r
}

impl Clone for Config {
    fn clone(&self) -> (r: Self)
        ensures
            r.deep_view() == self.deep_view(),
    {
        let r = Config {
            name: self.name.clone(),
            base: clone_opt_string(&self.base),
            components: clone_components(&self.components),
            reset: clone_strings(&self.reset),
            global: self.global.clone(),
        };
        proof {
            assert(r.deep_view() =~= self.deep_view());
        }
        r
    }
}

/// The first index whose component is named `n`, or -1 if none is.
pub open spec fn index_of_name(s: Seq<ComponentView>, n: Seq<char>) -> int
    decreases s.len(),
{
    if s.len() == 0 {
        -1
    } else if s[0].name == n {
        0
    } else {
        let r = index_of_name(s.drop_first(), n);
        if r == -1 {
            -1
        } else {
            r + 1
        }
    }
}

pub proof fn lemma_index_of_name(s: Seq<ComponentView>, n: Seq<char>)
    ensures
        index_of_name(s, n) == -1 ==> forall|i: int| 0 <= i < s.len() ==> s[i].name != n,
        index_of_name(s, n) != -1 ==> {
            let k = index_of_name(s, n);
            &&& 0 <= k < s.len()
            &&& s[k].name == n
            &&& forall|i: int| 0 <= i < k ==> s[i].name != n
        },
    decreases s.len(),
{
    if s.len() > 0 && s[0].name != n {
        lemma_index_of_name(s.drop_first(), n);
        assert(forall|i: int| 1 <= i < s.len() ==> s[i] == s.drop_first()[i - 1]);
    }
}

/// Linear search for a component by name; returns the first index.
pub fn find_component(components: &Vec<Component>, name: &str) -> (r: Option<usize>)
    ensures
        match r {
            Some(i) => i == index_of_name(components.deep_view(), name@) && i
                < components.deep_view().len(),
            None => index_of_name(components.deep_view(), name@) == -1,
        },
{
    proof {
        lemma_index_of_name(components.deep_view(), name@);
    }
    let ghost dv = components.deep_view();
    let mut i: usize = 0;
    while i < components.len()
        invariant
            dv == components.deep_view(),
            dv.len() == components@.len(),
            0 <= i <= dv.len(),
            forall|j: int| 0 <= j < i ==> dv[j].name != name@,
            index_of_name(dv, name@) == -1 ==> forall|j: int|
                0 <= j < dv.len() ==> dv[j].name != name@,
            index_of_name(dv, name@) != -1 ==> {
                let k = index_of_name(dv, name@);
                &&& 0 <= k < dv.len()
                &&& dv[k].name == name@
                &&& forall|j: int| 0 <= j < k ==> dv[j].name != name@
            },
        decreases components@.len() - i,
    {
        proof {
            assert(dv[i as int] == components@[i as int].deep_view());
        }
        if str_eq(components[i].name.as_str(), name) {
            return Some(i);
        }
        i = i + 1;
    }
    None
}

/// The base components with each of the update's components either replacing
/// the first base component of the same name or appended at the end.
pub open spec fn merge_components(base: Seq<ComponentView>, upd: Seq<ComponentView>) -> Seq<
    ComponentView,
>
    decreases upd.len(),
{
    if upd.len() == 0 {
        base
    } else {
        let prev = merge_components(base, upd.drop_last());
        let c = upd.last();
        let k = index_of_name(prev, c.name);
        if k == -1 {
            prev.push(c)
        } else {
            prev.update(k, c)
        }
    }
}

/// The global settings of `other` layered over those of `base`.
pub open spec fn merge_global(base: GlobalView, other: GlobalView) -> GlobalView {
    GlobalView {
        scripts: if other.scripts.len() > 0 {
            other.scripts
        } else {
            base.scripts
        },
        module_dirs: if other.module_dirs.len() > 0 {
            other.module_dirs
        } else {
            base.module_dirs
        },
        delay: if other.delay is Some {
            other.delay
        } else {
            base.delay
        },
        repeat: if other.repeat is Some {
            other.repeat
        } else {
            base.repeat
        },
        filter: if other.filter is Some {
            other.filter
        } else {
            base.filter
        },
        skip: if other.skip is Some {
            other.skip
        } else {
            base.skip
        },
        reset_once: base.reset_once || other.reset_once,
        force: base.force || other.force,
        keep_running: base.keep_running || other.keep_running,
    }
}

impl Config {
    /// Layers `other` over `self`: components are replaced by name or added,
    /// and each global setting is taken from `other` where it says anything.
    pub fn merge(&self, other: &Self) -> (r: Result<Self, Error>)
        ensures
            r is Ok,
            ({
                let m = r.unwrap().deep_view();
                &&& m.name == self.deep_view().name
                &&& m.base == self.deep_view().base
                &&& m.reset == self.deep_view().reset
                &&& m.components == merge_components(
                    self.deep_view().components,
                    other.deep_view().components,
                )
                &&& m.global == merge_global(self.deep_view().global, other.deep_view().global)
            }),
    {
        let mut result = self.clone();
        let mut i: usize = 0;
        while i < other.components.len()
            invariant
                0 <= i <= other.components@.len(),
                other.components.deep_view().len() == other.components@.len(),
                result.components.deep_view() == merge_components(
                    self.components.deep_view(),
                    other.components.deep_view().take(i as int),
                ),
                result.name@ == self.name@,
                result.base.deep_view() == self.base.deep_view(),
                result.reset.deep_view() == self.reset.deep_view(),
                result.global.deep_view() == self.global.deep_view(),
            decreases other.components@.len() - i,
        {
            let component = &other.components[i];
            let ghost updv = other.components.deep_view();
            proof {
                assert(updv.take(i + 1).drop_last() =~= updv.take(i as int));
                assert(updv.take(i + 1).last() == updv[i as int]);
                assert(updv[i as int] == other.components@[i as int].deep_view());
            }
            match find_component(&result.components, component.name.as_str()) {
                Some(pos) => {
                    let c = component.clone();
                    result.components.set(pos, c);
                    proof {
                        assert(result.components.deep_view() =~= merge_components(
                            self.components.deep_view(),
                            updv.take(i + 1),
                        ));
                    }
                },
                None => {
                    result.components.push(component.clone());
                    proof {
                        assert(result.components.deep_view() =~= merge_components(
                            self.components.deep_view(),
                            updv.take(i + 1),
                        ));
                    }
                },
            }
            i = i + 1;
        }
        proof {
            assert(other.components.deep_view().take(other.components@.len() as int)
                =~= other.components.deep_view());
        }

        if other.global.scripts.len() > 0 {
            result.global.scripts = clone_strings(&other.global.scripts);
        }
        if other.global.module_dirs.len() > 0 {
            result.global.module_dirs = clone_strings(&other.global.module_dirs);
        }
        if other.global.delay.is_some() {
            result.global.delay = clone_opt_string(&other.global.delay);
        }
        if other.global.repeat.is_some() {
            result.global.repeat = other.global.repeat;
        }
        if other.global.filter.is_some() {
            result.global.filter = clone_opt_string(&other.global.filter);
        }
        if other.global.skip.is_some() {
            result.global.skip = clone_opt_string(&other.global.skip);
        }
        result.global.reset_once = result.global.reset_once || other.global.reset_once;
        result.global.force = result.global.force || other.global.force;
        result.global.keep_running = result.global.keep_running || other.global.keep_running;
        proof {
            assert(result.global.deep_view() =~= merge_global(
                self.global.deep_view(),
                other.global.deep_view(),
            ));
        }

        Ok(result)
    }

    /// The first component of that name, if any is declared.
    pub fn get_component(&self, name: &str) -> (r: Option<&Component>)
        ensures
            match r {
                Some(c) => {
                    let k = index_of_name(self.deep_view().components, name@);
                    &&& k != -1
                    &&& c.deep_view() == self.deep_view().components[k]
                },
                None => index_of_name(self.deep_view().components, name@) == -1,
            },
    {
        match find_component(&self.components, name) {
            Some(i) => Some(&self.components[i]),
            None => None,
        }
    }
}

} // verus!
