//! The environment orchestrator: the set of running components, and the
//! fixed-point resolution that orders starts after dependencies and stops
//! after dependents, reporting a cycle when no order exists.

use vstd::prelude::*;

use crate::config::{ComponentView, Config, index_of_name, lemma_index_of_name};
use crate::strutil::{
    clone_strings, join_strings, seq_contains_str, seq_views, str_eq, vec_contains_str,
};
use crate::Error;

verus! {

/// The first index of `x` in `s`, or -1 if it does not occur.
pub open spec fn first_index_of(s: Seq<Seq<char>>, x: Seq<char>) -> int
    decreases s.len(),
{
    if s.len() == 0 {
        -1
    } else if s[0] == x {
        0
    } else {
        let r = first_index_of(s.drop_first(), x);
        if r == -1 {
            -1
        } else {
            r + 1
        }
    }
}

pub proof fn lemma_first_index_of(s: Seq<Seq<char>>, x: Seq<char>)
    ensures
        first_index_of(s, x) == -1 ==> !s.contains(x),
        first_index_of(s, x) != -1 ==> {
            let k = first_index_of(s, x);
            &&& 0 <= k < s.len()
            &&& s[k] == x
            &&& forall|j: int| 0 <= j < k ==> s[j] != x
        },
    decreases s.len(),
{
    if s.len() > 0 && s[0] != x {
        lemma_first_index_of(s.drop_first(), x);
        assert(forall|i: int| 1 <= i < s.len() ==> s[i] == s.drop_first()[i - 1]);
        if first_index_of(s, x) == -1 {
            assert forall|i: int| 0 <= i < s.len() implies s[i] != x by {
                if i >= 1 {
                    assert(s[i] == s.drop_first()[i - 1]);
                }
            }
        }
    }
}

pub proof fn lemma_seq_views_contains(v: Seq<String>, n: Seq<char>)
    ensures
        seq_contains_str(v, n) == seq_views(v).contains(n),
{
    if seq_contains_str(v, n) {
        let i = choose|i: int| 0 <= i < v.len() && v[i]@ == n;
        assert(seq_views(v)[i] == n);
    }
    if seq_views(v).contains(n) {
        let i = choose|i: int| 0 <= i < seq_views(v).len() && seq_views(v)[i] == n;
        assert(v[i]@ == n);
    }
}

/// The running set after a component is marked started: unchanged if the
/// name is already there, extended by it otherwise.
pub open spec fn views_after_start(r: Seq<Seq<char>>, x: Seq<char>) -> Seq<Seq<char>> {
    if r.contains(x) {
        r
    } else {
        r.push(x)
    }
}

/// The running set after a component is marked stopped: unchanged if the
/// name is not there, with its occurrence taken out otherwise.
pub open spec fn views_after_stop(r: Seq<Seq<char>>, x: Seq<char>) -> Seq<Seq<char>> {
    if !r.contains(x) {
        r
    } else {
        r.remove(first_index_of(r, x))
    }
}

/// Stopping a component directly after starting it restores the running set
/// exactly, and stopping one that was never started changes nothing.
pub proof fn lemma_stop_restores_running_set(r: Seq<Seq<char>>, x: Seq<char>)
    requires
        !r.contains(x),
    ensures
        views_after_stop(views_after_start(r, x), x) == r,
        views_after_stop(r, x) == r,
{
    let r2 = r.push(x);
    assert(r2[r.len() as int] == x);
    assert(r2.contains(x));
    lemma_first_index_of(r2, x);
    let k = first_index_of(r2, x);
    if k < r.len() {
        assert(r2[k] == r[k]);
        assert(r.contains(x));
    }
    assert(k == r.len());
    assert(r2.remove(k) =~= r);
}

/// The orchestrator: the declared component graph and the set of component
/// names currently running. The running set is mutated only through
/// `mark_started` and `mark_stopped`, once the matching launch or stop has
/// been carried out.
#[derive(Debug)]
pub struct ConfigurableEnvironment {
    pub cfg: Config,
    pub is_running: Vec<String>,
    pub stop_on_drop: bool,
}

impl ConfigurableEnvironment {
    /// The running set never lists a name twice.
    pub open spec fn wf(&self) -> bool {
        seq_views(self.is_running@).no_duplicates()
    }

    /// The views of the names currently running.
    pub open spec fn running_views(&self) -> Seq<Seq<char>> {
        seq_views(self.is_running@)
    }

    /// A fresh orchestrator over a component graph: nothing runs yet.
    pub fn new(cfg: &Config) -> (r: Self)
        ensures
            r.cfg.deep_view() == cfg.deep_view(),
            r.running_views() == Seq::<Seq<char>>::empty(),
            r.stop_on_drop == true,
            r.wf(),
    {
        let r = ConfigurableEnvironment {
            cfg: cfg.clone(),
            is_running: Vec::new(),
            stop_on_drop: true,
        };
        proof {
            assert(r.running_views() =~= Seq::<Seq<char>>::empty());
        }
        r
    }

    /// Whether to tear the environment down when the run ends.
    pub fn set_stop_on_drop(&mut self, stop_on_drop: bool)
        ensures
            final(self).cfg.deep_view() == old(self).cfg.deep_view(),
            final(self).running_views() == old(self).running_views(),
            final(self).stop_on_drop == stop_on_drop,
            old(self).wf() ==> final(self).wf(),
    {
        self.stop_on_drop = stop_on_drop;
    }

    /// Whether the component is currently marked running.
    pub fn component_is_running(&self, name: &str) -> (r: bool)
        ensures
            r == self.running_views().contains(name@),
    {
        proof {
            lemma_seq_views_contains(self.is_running@, name@);
        }
        vec_contains_str(&self.is_running, name)
    }

    /// Marks a component running, after its launch succeeded. Idempotent.
    pub fn mark_started(&mut self, name: &str)
        requires
            old(self).wf(),
        ensures
            final(self).running_views() == views_after_start(old(self).running_views(), name@),
            final(self).cfg.deep_view() == old(self).cfg.deep_view(),
            final(self).stop_on_drop == old(self).stop_on_drop,
            final(self).wf(),
    {
        if !self.component_is_running(name) {
            let owned = name.to_owned();
            self.is_running.push(owned);
            proof {
                assert(final(self).running_views() =~= old(self).running_views().push(name@));
            }
        }
    }

    /// Marks a component stopped, after it was torn down. Idempotent.
    pub fn mark_stopped(&mut self, name: &str)
        requires
            old(self).wf(),
        ensures
            final(self).running_views() == views_after_stop(old(self).running_views(), name@),
            final(self).cfg.deep_view() == old(self).cfg.deep_view(),
            final(self).stop_on_drop == old(self).stop_on_drop,
            final(self).wf(),
    {
        proof {
            lemma_first_index_of(self.running_views(), name@);
        }
        let mut i: usize = 0;
        let mut found: Option<usize> = None;
        while i < self.is_running.len()
            invariant
                0 <= i <= self.is_running@.len(),
                match found {
                    Some(k) => k == first_index_of(self.running_views(), name@),
                    None => forall|j: int| 0 <= j < i ==> self.running_views()[j] != name@,
                },
                found is Some ==> first_index_of(self.running_views(), name@) != -1,
                first_index_of(self.running_views(), name@) != -1 ==> {
                    let k = first_index_of(self.running_views(), name@);
                    &&& 0 <= k < self.running_views().len()
                    &&& self.running_views()[k] == name@
                    &&& forall|j: int| 0 <= j < k ==> self.running_views()[j] != name@
                },
                first_index_of(self.running_views(), name@) == -1 ==> !self.running_views()
                    .contains(name@),
            decreases self.is_running@.len() - i,
        {
            if found.is_none() && str_eq(self.is_running[i].as_str(), name) {
                proof {
                    assert(self.running_views()[i as int] == name@);
                    assert(self.running_views().contains(name@));
                }
                found = Some(i);
            }
            i = i + 1;
        }
        match found {
            Some(k) => {
                self.is_running.remove(k);
                proof {
                    assert(old(self).running_views().contains(name@));
                    assert(final(self).running_views() =~= old(self).running_views().remove(
                        k as int,
                    ));
                    let ov = old(self).running_views();
                    assert forall|a: int, b: int|
                        0 <= a < b < ov.remove(k as int).len() implies ov.remove(k as int)[a]
                        != ov.remove(k as int)[b] by {
                        let ra = if a < k { a } else { a + 1 };
                        let rb = if b < k { b } else { b + 1 };
                        assert(ov.remove(k as int)[a] == ov[ra]);
                        assert(ov.remove(k as int)[b] == ov[rb]);
                    }
                }
            },
            None => {
                proof {
                    if self.running_views().contains(name@) {
                        let j = choose|j: int|
                            0 <= j < self.running_views().len() && self.running_views()[j]
                                == name@;
                        assert(false);
                    }
                }
            },
        }
    }
}

/// Whether a component of that name is declared in the graph.
pub open spec fn known(comps: Seq<ComponentView>, n: Seq<char>) -> bool {
    index_of_name(comps, n) != -1
}

/// The dependencies of the first component named `n`; empty if none is
/// declared.
pub open spec fn deps_of(comps: Seq<ComponentView>, n: Seq<char>) -> Seq<Seq<char>> {
    if known(comps, n) {
        comps[index_of_name(comps, n)].dependencies
    } else {
        Seq::<Seq<char>>::empty()
    }
}

/// A declared component may start when each of its dependencies is already
/// running or stands in the plan built so far.
pub open spec fn spec_startable(
    comps: Seq<ComponentView>,
    running: Seq<String>,
    plan: Seq<String>,
    n: Seq<char>,
) -> bool {
    known(comps, n) && forall|d: int|
        0 <= d < deps_of(comps, n).len() ==> seq_contains_str(running, deps_of(comps, n)[d])
            || seq_contains_str(plan, deps_of(comps, n)[d])
}

/// Every entry of the plan could start at its position: each of its
/// dependencies was running at the outset or stands strictly earlier.
pub open spec fn respects_deps(
    comps: Seq<ComponentView>,
    running: Seq<String>,
    plan: Seq<String>,
) -> bool {
    forall|i: int|
        0 <= i < plan.len() ==> spec_startable(comps, running, plan.take(i), #[trigger] plan[i]@)
}

/// A non-empty set of components none of which can ever start: each is not
/// running and is either undeclared or has a dependency that is not running
/// and is itself stuck in the set.
pub open spec fn spec_stuck(
    comps: Seq<ComponentView>,
    running: Seq<String>,
    stuck: Seq<String>,
) -> bool {
    stuck.len() > 0 && forall|i: int|
        0 <= i < stuck.len() ==> !seq_contains_str(running, #[trigger] stuck[i]@) && (!known(
            comps,
            stuck[i]@,
        ) || exists|d: int|
            0 <= d < deps_of(comps, stuck[i]@).len() && !seq_contains_str(
                running,
                deps_of(comps, stuck[i]@)[d],
            ) && seq_contains_str(stuck, deps_of(comps, stuck[i]@)[d]))
}

/// A name belongs in a pending set only for a reason: it is a seed, or some
/// member of the set depends on it.
pub open spec fn justified(
    comps: Seq<ComponentView>,
    pool: Seq<String>,
    seeds: Seq<Seq<char>>,
    x: Seq<char>,
) -> bool {
    seeds.contains(x) || exists|j: int|
        0 <= j < pool.len() && known(comps, #[trigger] pool[j]@) && deps_of(
            comps,
            pool[j]@,
        ).contains(x)
}

/// Every dependency name that any component of the graph declares.
pub open spec fn all_dep_names(comps: Seq<ComponentView>) -> Seq<Seq<char>>
    decreases comps.len(),
{
    if comps.len() == 0 {
        Seq::<Seq<char>>::empty()
    } else {
        all_dep_names(comps.drop_last()) + comps.last().dependencies
    }
}

pub proof fn lemma_dep_in_all(comps: Seq<ComponentView>, k: int, d: int)
    requires
        0 <= k < comps.len(),
        0 <= d < comps[k].dependencies.len(),
    ensures
        all_dep_names(comps).contains(comps[k].dependencies[d]),
    decreases comps.len(),
{
    let prefix = all_dep_names(comps.drop_last());
    if k == comps.len() - 1 {
        assert(all_dep_names(comps)[prefix.len() + d] == comps[k].dependencies[d]);
    } else {
        lemma_dep_in_all(comps.drop_last(), k, d);
        let i = choose|i: int| 0 <= i < prefix.len() && prefix[i] == comps[k].dependencies[d];
        assert(all_dep_names(comps)[i] == comps[k].dependencies[d]);
    }
}

/// A sequence without duplicates whose members all come from a pool is no
/// longer than the pool.
pub proof fn lemma_unique_within_pool(p: Seq<Seq<char>>, pool: Seq<Seq<char>>)
    requires
        p.no_duplicates(),
        forall|i: int| 0 <= i < p.len() ==> pool.contains(#[trigger] p[i]),
    ensures
        p.len() <= pool.len(),
{
    broadcast use vstd::set::group_set_axioms, vstd::seq_lib::seq_to_set_is_finite;

    p.unique_seq_to_set();
    assert forall|x: Seq<char>| p.to_set().contains(x) implies pool.to_set().contains(x) by {
        assert(p.contains(x));
        let i = choose|i: int| 0 <= i < p.len() && p[i] == x;
        assert(pool.contains(x));
    }
    assert(p.to_set().subset_of(pool.to_set()));
    vstd::set_lib::lemma_len_subset(p.to_set(), pool.to_set());
    pool.lemma_cardinality_of_set();
}

impl ConfigurableEnvironment {
    /// The graph the orchestrator resolves over.
    pub open spec fn comps(&self) -> Seq<ComponentView> {
        self.cfg.deep_view().components
    }

    /// Whether the named component could start now, given what is running
    /// and what the plan already holds.
    fn startable(&self, name: &str, plan: &Vec<String>) -> (r: bool)
        ensures
            r == spec_startable(self.comps(), self.is_running@, plan@, name@),
    {
        match self.cfg.get_component(name) {
            None => false,
            Some(c) => {
                let ghost k = index_of_name(self.comps(), name@);
                let mut d: usize = 0;
                while d < c.dependencies.len()
                    invariant
                        c.deep_view() == self.comps()[index_of_name(self.comps(), name@)],
                        known(self.comps(), name@),
                        deps_of(self.comps(), name@) == c.dependencies.deep_view(),
                        c.dependencies.deep_view().len() == c.dependencies@.len(),
                        0 <= d <= c.dependencies@.len(),
                        forall|j: int|
                            0 <= j < d ==> seq_contains_str(
                                self.is_running@,
                                deps_of(self.comps(), name@)[j],
                            ) || seq_contains_str(plan@, deps_of(self.comps(), name@)[j]),
                    decreases c.dependencies@.len() - d,
                {
                    proof {
                        assert(deps_of(self.comps(), name@)[d as int] == c.dependencies@[
                            d as int
                        ]@);
                    }
                    let dep = &c.dependencies[d];
                    if !vec_contains_str(&self.is_running, dep.as_str()) && !vec_contains_str(
                        plan,
                        dep.as_str(),
                    ) {
                        return false;
                    }
                    d = d + 1;
                }
                true
            },
        }
    }

    /// Collects the pending set: the seeds together with every not-yet-running
    /// name reachable from them through dependencies.
    fn collect_pending(&self, seeds: Vec<String>) -> (pending: Vec<String>)
        requires
            self.wf(),
            seq_views(seeds@).no_duplicates(),
            forall|i: int|
                0 <= i < seeds@.len() ==> !seq_contains_str(self.is_running@, #[trigger] seeds@[
                    i
                ]@),
        ensures
            seq_views(pending@).no_duplicates(),
            forall|i: int|
                0 <= i < pending@.len() ==> !seq_contains_str(self.is_running@, #[trigger] pending@[
                    i
                ]@),
            forall|i: int|
                0 <= i < seeds@.len() ==> seq_contains_str(pending@, #[trigger] seeds@[i]@),
            forall|i: int, d: int|
                0 <= i < pending@.len() && known(self.comps(), #[trigger] pending@[i]@) && 0 <= d
                    < deps_of(self.comps(), pending@[i]@).len() && !seq_contains_str(
                    self.is_running@,
                    #[trigger] deps_of(self.comps(), pending@[i]@)[d],
                ) ==> seq_contains_str(pending@, deps_of(self.comps(), pending@[i]@)[d]),
            forall|i: int|
                0 <= i < pending@.len() ==> justified(
                    self.comps(),
                    pending@,
                    seq_views(seeds@),
                    #[trigger] pending@[i]@,
                ),
    {
        let ghost comps = self.comps();
        let ghost seeds0 = seeds@;
        let ghost pool = seq_views(seeds0) + all_dep_names(comps);
        let mut pending = seeds;
        let mut qi: usize = 0;
        proof {
            assert forall|i: int| 0 <= i < pending@.len() implies pool.contains(
                #[trigger] pending@[i]@,
            ) by {
                assert(seq_views(seeds0)[i] == pending@[i]@);
                assert(pool[i] == pending@[i]@);
            }
            assert forall|i: int| 0 <= i < pending@.len() implies justified(
                comps,
                pending@,
                seq_views(seeds0),
                #[trigger] pending@[i]@,
            ) by {
                assert(seq_views(seeds0)[i] == pending@[i]@);
                assert(seq_views(seeds0).contains(pending@[i]@));
            }
        }
        while qi < pending.len()
            invariant
                self.wf(),
                comps == self.comps(),
                pool == seq_views(seeds0) + all_dep_names(comps),
                0 <= qi <= pending@.len(),
                seeds0.len() <= pending@.len(),
                forall|i: int| 0 <= i < seeds0.len() ==> pending@[i] == seeds0[i],
                seq_views(pending@).no_duplicates(),
                forall|i: int|
                    0 <= i < pending@.len() ==> !seq_contains_str(
                        self.is_running@,
                        #[trigger] pending@[i]@,
                    ),
                forall|i: int|
                    0 <= i < pending@.len() ==> pool.contains(#[trigger] pending@[i]@),
                forall|i: int|
                    0 <= i < pending@.len() ==> justified(
                        comps,
                        pending@,
                        seq_views(seeds0),
                        #[trigger] pending@[i]@,
                    ),
                forall|i: int, d: int|
                    0 <= i < qi && known(comps, #[trigger] pending@[i]@) && 0 <= d < deps_of(
                        comps,
                        pending@[i]@,
                    ).len() && !seq_contains_str(
                        self.is_running@,
                        #[trigger] deps_of(comps, pending@[i]@)[d],
                    ) ==> seq_contains_str(pending@, deps_of(comps, pending@[i]@)[d]),
            decreases pool.len() + 1 - pending@.len(), pending@.len() - qi,
        {
            proof {
                lemma_unique_within_pool(seq_views(pending@), pool);
            }
            let current = pending[qi].clone();
            let ghost cur = pending@[qi as int]@;
            match self.cfg.get_component(current.as_str()) {
                None => {},
                Some(c) => {
                    let ghost k = index_of_name(comps, cur);
                    let ghost len_at_entry = pending@.len();
                    proof {
                        lemma_index_of_name(comps, cur);
                    }
                    let mut d: usize = 0;
                    while d < c.dependencies.len()
                        invariant
                            self.wf(),
                            comps == self.comps(),
                            pool == seq_views(seeds0) + all_dep_names(comps),
                            known(comps, cur),
                            k == index_of_name(comps, cur),
                            0 <= k < comps.len(),
                            len_at_entry <= pending@.len(),
                            c.deep_view() == comps[k],
                            deps_of(comps, cur) == c.dependencies.deep_view(),
                            c.dependencies.deep_view().len() == c.dependencies@.len(),
                            0 <= d <= c.dependencies@.len(),
                            0 <= qi < pending@.len(),
                            pending@[qi as int]@ == cur,
                            seeds0.len() <= pending@.len(),
                            forall|i: int| 0 <= i < seeds0.len() ==> pending@[i] == seeds0[i],
                            seq_views(pending@).no_duplicates(),
                            forall|i: int|
                                0 <= i < pending@.len() ==> !seq_contains_str(
                                    self.is_running@,
                                    #[trigger] pending@[i]@,
                                ),
                            forall|i: int|
                                0 <= i < pending@.len() ==> pool.contains(
                                    #[trigger] pending@[i]@,
                                ),
                            forall|i: int|
                                0 <= i < pending@.len() ==> justified(
                                    comps,
                                    pending@,
                                    seq_views(seeds0),
                                    #[trigger] pending@[i]@,
                                ),
                            forall|i: int, dd: int|
                                0 <= i < qi && known(comps, #[trigger] pending@[i]@) && 0 <= dd
                                    < deps_of(comps, pending@[i]@).len() && !seq_contains_str(
                                    self.is_running@,
                                    #[trigger] deps_of(comps, pending@[i]@)[dd],
                                ) ==> seq_contains_str(pending@, deps_of(comps, pending@[i]@)[dd]),
                            forall|dd: int|
                                0 <= dd < d && !seq_contains_str(
                                    self.is_running@,
                                    #[trigger] deps_of(comps, cur)[dd],
                                ) ==> seq_contains_str(pending@, deps_of(comps, cur)[dd]),
                        decreases c.dependencies@.len() - d,
                    {
                        proof {
                            assert(deps_of(comps, cur)[d as int] == c.dependencies@[d as int]@);
                        }
                        let dep = &c.dependencies[d];
                        if !vec_contains_str(&self.is_running, dep.as_str()) && !vec_contains_str(
                            &pending,
                            dep.as_str(),
                        ) {
                            let ghost before = pending@;
                            pending.push(dep.clone());
                            proof {
                                let dv = deps_of(comps, cur)[d as int];
                                assert(pending@[before.len() as int]@ == dv);
                                assert forall|i: int|
                                    0 <= i < pending@.len() implies pool.contains(
                                    #[trigger] pending@[i]@,
                                ) by {
                                    if i < before.len() {
                                        assert(pending@[i] == before[i]);
                                    } else {
                                        lemma_dep_in_all(comps, k, d as int);
                                        let m = choose|m: int|
                                            0 <= m < all_dep_names(comps).len() && all_dep_names(
                                                comps,
                                            )[m] == dv;
                                        assert(pool[seq_views(seeds0).len() + m] == dv);
                                    }
                                }
                                assert forall|a: int, b: int|
                                    0 <= a < b < pending@.len() implies seq_views(pending@)[a]
                                    != seq_views(pending@)[b] by {
                                    if b < before.len() {
                                        assert(seq_views(before)[a] != seq_views(before)[b]);
                                    } else {
                                        assert(pending@[b]@ == dv);
                                        assert(!seq_contains_str(before, dv));
                                        assert(pending@[a] == before[a]);
                                    }
                                }
                                assert forall|i: int|
                                    0 <= i < pending@.len() implies justified(
                                    comps,
                                    pending@,
                                    seq_views(seeds0),
                                    #[trigger] pending@[i]@,
                                ) by {
                                    if i < before.len() {
                                        assert(justified(comps, before, seq_views(seeds0),
                                        pending@[i]@));
                                        if !seq_views(seeds0).contains(pending@[i]@) {
                                            let j = choose|j: int|
                                                0 <= j < before.len() && known(
                                                    comps,
                                                    #[trigger] before[j]@,
                                                ) && deps_of(comps, before[j]@).contains(
                                                    pending@[i]@,
                                                );
                                            assert(pending@[j] == before[j]);
                                        }
                                    } else {
                                        assert(pending@[qi as int]@ == cur);
                                        assert(deps_of(comps, cur).contains(dv));
                                    }
                                }
                                assert forall|i: int, dd: int|
                                    0 <= i < qi && known(comps, #[trigger] pending@[i]@) && 0 <= dd
                                        < deps_of(comps, pending@[i]@).len() && !seq_contains_str(
                                        self.is_running@,
                                        #[trigger] deps_of(comps, pending@[i]@)[dd],
                                    ) implies seq_contains_str(
                                    pending@,
                                    deps_of(comps, pending@[i]@)[dd],
                                ) by {
                                    assert(pending@[i] == before[i]);
                                    assert(seq_contains_str(before, deps_of(comps, pending@[i]@)[
                                        dd
                                    ]));
                                    let w = choose|w: int|
                                        0 <= w < before.len() && before[w]@ == deps_of(
                                            comps,
                                            pending@[i]@,
                                        )[dd];
                                    assert(pending@[w] == before[w]);
                                }
                                assert forall|dd: int|
                                    0 <= dd <= d && !seq_contains_str(
                                        self.is_running@,
                                        #[trigger] deps_of(comps, cur)[dd],
                                    ) implies seq_contains_str(
                                    pending@,
                                    deps_of(comps, cur)[dd],
                                ) by {
                                    if dd < d {
                                        let w = choose|w: int|
                                            0 <= w < before.len() && before[w]@ == deps_of(
                                                comps,
                                                cur,
                                            )[dd];
                                        assert(pending@[w] == before[w]);
                                    } else {
                                        assert(pending@[before.len() as int]@ == dv);
                                    }
                                }
                            }
                        }
                        d = d + 1;
                    }
                },
            }
            qi = qi + 1;
            proof {
                lemma_unique_within_pool(seq_views(pending@), pool);
            }
        }
        proof {
            assert forall|i: int| 0 <= i < seeds0.len() implies seq_contains_str(
                pending@,
                #[trigger] seeds0[i]@,
            ) by {
                assert(pending@[i] == seeds0[i]);
            }
        }
        pending
    }

    /// Orders a pending set so that dependencies come first, by repeatedly
    /// starting whatever can start; a round with no progress means the rest
    /// can never start, which is reported as a dependency cycle.
    fn resolve_order(&self, pending: Vec<String>) -> (r: Result<Vec<String>, Error>)
        requires
            self.wf(),
            seq_views(pending@).no_duplicates(),
            forall|i: int|
                0 <= i < pending@.len() ==> !seq_contains_str(self.is_running@, #[trigger] pending@[
                    i
                ]@),
            forall|i: int, d: int|
                0 <= i < pending@.len() && known(self.comps(), #[trigger] pending@[i]@) && 0 <= d
                    < deps_of(self.comps(), pending@[i]@).len() && !seq_contains_str(
                    self.is_running@,
                    #[trigger] deps_of(self.comps(), pending@[i]@)[d],
                ) ==> seq_contains_str(pending@, deps_of(self.comps(), pending@[i]@)[d]),
        ensures
            r matches Ok(plan) ==> {
                &&& respects_deps(self.comps(), self.is_running@, plan@)
                &&& seq_views(plan@).no_duplicates()
                &&& forall|n: Seq<char>|
                    #[trigger] seq_contains_str(plan@, n) == seq_contains_str(pending@, n)
            },
            r matches Err(e) ==> e is Config && exists|stuck: Seq<String>|
                spec_stuck(self.comps(), self.is_running@, stuck),
    {
        let ghost comps = self.comps();
        let ghost pending0 = pending@;
        let mut plan: Vec<String> = Vec::new();
        let mut remaining = pending;
        while remaining.len() > 0
            invariant
                self.wf(),
                comps == self.comps(),
                seq_views(plan@).no_duplicates(),
                seq_views(remaining@).no_duplicates(),
                forall|i: int|
                    0 <= i < remaining@.len() ==> !seq_contains_str(plan@, #[trigger] remaining@[
                        i
                    ]@),
                forall|n: Seq<char>|
                    #[trigger] seq_contains_str(pending0, n) == (seq_contains_str(plan@, n)
                        || seq_contains_str(remaining@, n)),
                respects_deps(comps, self.is_running@, plan@),
                forall|i: int|
                    0 <= i < remaining@.len() ==> !seq_contains_str(
                        self.is_running@,
                        #[trigger] remaining@[i]@,
                    ),
                forall|i: int, d: int|
                    0 <= i < pending0.len() && known(comps, #[trigger] pending0[i]@) && 0 <= d
                        < deps_of(comps, pending0[i]@).len() && !seq_contains_str(
                        self.is_running@,
                        #[trigger] deps_of(comps, pending0[i]@)[d],
                    ) ==> seq_contains_str(pending0, deps_of(comps, pending0[i]@)[d]),
            decreases remaining@.len(),
        {
            let mut k: usize = 0;
            let mut found: Option<usize> = None;
            while k < remaining.len()
                invariant
                    comps == self.comps(),
                    0 <= k <= remaining@.len(),
                    match found {
                        Some(f) => 0 <= f < remaining@.len() && spec_startable(
                            comps,
                            self.is_running@,
                            plan@,
                            remaining@[f as int]@,
                        ),
                        None => forall|j: int|
                            0 <= j < k ==> !spec_startable(
                                comps,
                                self.is_running@,
                                plan@,
                                #[trigger] remaining@[j]@,
                            ),
                    },
                decreases remaining@.len() - k,
            {
                if found.is_none() {
                    if self.startable(remaining[k].as_str(), &plan) {
                        found = Some(k);
                    }
                }
                k = k + 1;
            }
            match found {
                Some(f) => {
                    let ghost plan_before = plan@;
                    let ghost rem_before = remaining@;
                    let name = remaining.remove(f);
                    plan.push(name);
                    proof {
                        let moved = rem_before[f as int]@;
                        assert(plan@ == plan_before.push(rem_before[f as int]));
                        assert forall|a: int, b: int|
                            0 <= a < b < plan@.len() implies seq_views(plan@)[a] != seq_views(
                            plan@,
                        )[b] by {
                            if b < plan_before.len() {
                                assert(seq_views(plan_before)[a] != seq_views(plan_before)[b]);
                            } else {
                                assert(plan@[b]@ == moved);
                                assert(!seq_contains_str(plan_before, moved));
                                assert(plan@[a] == plan_before[a]);
                            }
                        }
                        assert forall|a: int, b: int|
                            0 <= a < b < remaining@.len() implies seq_views(remaining@)[a]
                            != seq_views(remaining@)[b] by {
                            let ra = if a < f { a } else { a + 1 };
                            let rb = if b < f { b } else { b + 1 };
                            assert(remaining@[a] == rem_before[ra]);
                            assert(remaining@[b] == rem_before[rb]);
                            assert(seq_views(rem_before)[ra] != seq_views(rem_before)[rb]);
                        }
                        assert forall|i: int|
                            0 <= i < remaining@.len() implies !seq_contains_str(
                            plan@,
                            #[trigger] remaining@[i]@,
                        ) by {
                            let ri = if i < f { i } else { i + 1 };
                            assert(remaining@[i] == rem_before[ri]);
                            if seq_contains_str(plan@, remaining@[i]@) {
                                let w = choose|w: int|
                                    0 <= w < plan@.len() && plan@[w]@ == remaining@[i]@;
                                if w < plan_before.len() {
                                    assert(seq_contains_str(plan_before, rem_before[ri]@));
                                } else {
                                    assert(seq_views(rem_before)[ri] != seq_views(rem_before)[
                                        f as int
                                    ]);
                                }
                            }
                        }
                        assert forall|n: Seq<char>|
                            #[trigger] seq_contains_str(pending0, n) == (seq_contains_str(
                            plan@,
                            n,
                        ) || seq_contains_str(remaining@, n)) by {
                            if seq_contains_str(plan@, n) {
                                let w = choose|w: int|
                                    0 <= w < plan@.len() && plan@[w]@ == n;
                                if w < plan_before.len() {
                                    assert(seq_contains_str(plan_before, n));
                                } else {
                                    assert(rem_before[f as int]@ == n);
                                    assert(seq_contains_str(rem_before, n));
                                }
                                assert(seq_contains_str(pending0, n));
                            }
                            if seq_contains_str(remaining@, n) {
                                let w = choose|w: int|
                                    0 <= w < remaining@.len() && remaining@[w]@ == n;
                                let rw = if w < f { w } else { w + 1 };
                                assert(remaining@[w] == rem_before[rw]);
                                assert(seq_contains_str(rem_before, n));
                                assert(seq_contains_str(pending0, n));
                            }
                            if seq_contains_str(pending0, n) {
                                if seq_contains_str(plan_before, n) {
                                    let w = choose|w: int|
                                        0 <= w < plan_before.len() && plan_before[w]@ == n;
                                    assert(plan@[w] == plan_before[w]);
                                    assert(seq_contains_str(plan@, n));
                                } else {
                                    assert(seq_contains_str(rem_before, n));
                                    let w = choose|w: int|
                                        0 <= w < rem_before.len() && rem_before[w]@ == n;
                                    if w == f {
                                        assert(plan@[plan_before.len() as int]@ == n);
                                        assert(seq_contains_str(plan@, n));
                                    } else {
                                        let rw = if w < f { w } else { w - 1 };
                                        assert(remaining@[rw] == rem_before[w]);
                                        assert(seq_contains_str(remaining@, n));
                                    }
                                }
                            }
                        }
                        assert forall|i: int|
                            0 <= i < plan@.len() implies spec_startable(
                            comps,
                            self.is_running@,
                            plan@.take(i),
                            #[trigger] plan@[i]@,
                        ) by {
                            if i < plan_before.len() {
                                assert(spec_startable(
                                    comps,
                                    self.is_running@,
                                    plan_before.take(i),
                                    plan_before[i]@,
                                ));
                                assert(plan@.take(i) =~= plan_before.take(i));
                            } else {
                                assert(plan@[i]@ == moved);
                                assert(plan@.take(i) =~= plan_before);
                                assert(spec_startable(comps, self.is_running@, plan_before, moved));
                            }
                        }
                    }
                },
                None => {
                    proof {
                        assert forall|i: int|
                            0 <= i < remaining@.len() implies !seq_contains_str(
                            self.is_running@,
                            #[trigger] remaining@[i]@,
                        ) && (!known(comps, remaining@[i]@) || exists|d: int|
                            0 <= d < deps_of(comps, remaining@[i]@).len() && !seq_contains_str(
                                self.is_running@,
                                deps_of(comps, remaining@[i]@)[d],
                            ) && seq_contains_str(remaining@, deps_of(comps, remaining@[i]@)[d]))
                        by {
                            let n = remaining@[i]@;
                            assert(!spec_startable(comps, self.is_running@, plan@, n));
                            if known(comps, n) {
                                let d = choose|d: int|
                                    0 <= d < deps_of(comps, n).len() && !seq_contains_str(
                                        self.is_running@,
                                        deps_of(comps, n)[d],
                                    ) && !seq_contains_str(plan@, deps_of(comps, n)[d]);
                                assert(seq_contains_str(pending0, n));
                                let pi = choose|pi: int|
                                    0 <= pi < pending0.len() && pending0[pi]@ == n;
                                assert(seq_contains_str(pending0, deps_of(comps, n)[d]));
                                assert(seq_contains_str(remaining@, deps_of(comps, n)[d]));
                            }
                        }
                        assert(spec_stuck(comps, self.is_running@, remaining@));
                    }
                    let mut msg = String::new();
                    msg.append("Circular dependency detected in components: ");
                    let listing = join_strings(&remaining, ", ");
                    msg.append(listing.as_str());
                    return Err(Error::Config(msg));
                },
            }
        }
        proof {
            assert forall|n: Seq<char>|
                #[trigger] seq_contains_str(plan@, n) == seq_contains_str(pending0, n) by {
                assert(seq_contains_str(pending0, n) == (seq_contains_str(plan@, n)
                    || seq_contains_str(remaining@, n)));
            }
        }
        Ok(plan)
    }
}

impl ConfigurableEnvironment {
    /// The components to start, in order, so that the named component runs:
    /// its not-yet-running transitive dependencies first, each after its own
    /// dependencies, the target itself among them. Already running: an empty
    /// plan. An unknown name or a dependency cycle: a configuration error.
    pub fn start_plan(&self, component_name: &str) -> (r: Result<Vec<String>, Error>)
        requires
            self.wf(),
        ensures
            r matches Ok(plan) ==> {
                &&& respects_deps(self.comps(), self.is_running@, plan@)
                &&& seq_views(plan@).no_duplicates()
                &&& forall|i: int|
                    0 <= i < plan@.len() ==> !seq_contains_str(
                        self.is_running@,
                        #[trigger] plan@[i]@,
                    )
                &&& self.running_views().contains(component_name@) ==> plan@.len() == 0
                &&& !self.running_views().contains(component_name@) ==> seq_contains_str(
                    plan@,
                    component_name@,
                )
                &&& forall|i: int|
                    0 <= i < plan@.len() ==> justified(
                        self.comps(),
                        plan@,
                        seq![component_name@],
                        #[trigger] plan@[i]@,
                    )
            },
            r matches Err(e) ==> e is Config && (!known(self.comps(), component_name@)
                || exists|stuck: Seq<String>| spec_stuck(self.comps(), self.is_running@, stuck)),
            self.running_views().contains(component_name@) ==> r is Ok,
    {
        if self.component_is_running(component_name) {
            return Ok(Vec::new());
        }
        if self.cfg.get_component(component_name).is_none() {
            let mut msg = String::new();
            msg.append("Component ");
            msg.append(component_name);
            msg.append(" not found in config");
            return Err(Error::Config(msg));
        }
        let mut seeds: Vec<String> = Vec::new();
        seeds.push(component_name.to_owned());
        proof {
            assert(seq_views(seeds@) =~= seq![component_name@]);
            lemma_seq_views_contains(self.is_running@, component_name@);
        }
        let ghost seeds0 = seeds@;
        let pending = self.collect_pending(seeds);
        let r = self.resolve_order(pending);
        proof {
            if r is Ok {
                let plan = r.unwrap();
                assert(seq_contains_str(pending@, component_name@)) by {
                    assert(seq_contains_str(pending@, seeds0[0]@));
                }
                assert forall|i: int| 0 <= i < plan@.len() implies !seq_contains_str(
                    self.is_running@,
                    #[trigger] plan@[i]@,
                ) by {
                    assert(seq_contains_str(plan@, plan@[i]@));
                    assert(seq_contains_str(pending@, plan@[i]@));
                    let pi = choose|pi: int|
                        0 <= pi < pending@.len() && pending@[pi]@ == plan@[i]@;
                    assert(!seq_contains_str(self.is_running@, pending@[pi]@));
                }
                assert forall|i: int| 0 <= i < plan@.len() implies justified(
                    self.comps(),
                    plan@,
                    seq![component_name@],
                    #[trigger] plan@[i]@,
                ) by {
                    assert(seq_contains_str(plan@, plan@[i]@));
                    assert(seq_contains_str(pending@, plan@[i]@));
                    let pi = choose|pi: int|
                        0 <= pi < pending@.len() && pending@[pi]@ == plan@[i]@;
                    assert(justified(
                        self.comps(),
                        pending@,
                        seq_views(seeds0),
                        pending@[pi]@,
                    ));
                    if seq_views(seeds0).contains(plan@[i]@) {
                        assert(seq_views(seeds0)[0] == component_name@);
                        assert(seq![component_name@].contains(plan@[i]@));
                    } else {
                        let j = choose|j: int|
                            0 <= j < pending@.len() && known(
                                self.comps(),
                                #[trigger] pending@[j]@,
                            ) && deps_of(self.comps(), pending@[j]@).contains(plan@[i]@);
                        assert(seq_contains_str(pending@, pending@[j]@));
                        assert(seq_contains_str(plan@, pending@[j]@));
                        let m = choose|m: int|
                            0 <= m < plan@.len() && plan@[m]@ == pending@[j]@;
                        assert(known(self.comps(), plan@[m]@) && deps_of(
                            self.comps(),
                            plan@[m]@,
                        ).contains(plan@[i]@));
                    }
                }
            }
        }
        r
    }

    /// The components to start for a whole-environment start: every declared
    /// `start_by_default` component that is not yet running, with its
    /// transitive dependencies, each after its own dependencies.
    pub fn start_all_plan(&self) -> (r: Result<Vec<String>, Error>)
        requires
            self.wf(),
        ensures
            r matches Ok(plan) ==> {
                &&& respects_deps(self.comps(), self.is_running@, plan@)
                &&& seq_views(plan@).no_duplicates()
                &&& forall|i: int|
                    0 <= i < plan@.len() ==> !seq_contains_str(
                        self.is_running@,
                        #[trigger] plan@[i]@,
                    )
                &&& forall|j: int|
                    0 <= j < self.comps().len() && (#[trigger] self.comps()[j]).start_by_default
                        && !seq_contains_str(self.is_running@, self.comps()[j].name)
                        ==> seq_contains_str(plan@, self.comps()[j].name)
            },
            r matches Err(e) ==> e is Config && exists|stuck: Seq<String>|
                spec_stuck(self.comps(), self.is_running@, stuck),
    {
        let ghost comps = self.comps();
        let mut seeds: Vec<String> = Vec::new();
        let mut i: usize = 0;
        while i < self.cfg.components.len()
            invariant
                comps == self.comps(),
                comps.len() == self.cfg.components@.len(),
                0 <= i <= comps.len(),
                seq_views(seeds@).no_duplicates(),
                forall|x: int|
                    0 <= x < seeds@.len() ==> !seq_contains_str(
                        self.is_running@,
                        #[trigger] seeds@[x]@,
                    ),
                forall|j: int|
                    0 <= j < i && (#[trigger] comps[j]).start_by_default && !seq_contains_str(
                        self.is_running@,
                        comps[j].name,
                    ) ==> seq_contains_str(seeds@, comps[j].name),
            decreases comps.len() - i,
        {
            let c = &self.cfg.components[i];
            proof {
                assert(c.deep_view() == comps[i as int]);
            }
            if c.start_by_default {
                if !vec_contains_str(&self.is_running, c.name.as_str()) {
                    if !vec_contains_str(&seeds, c.name.as_str()) {
                        let ghost before = seeds@;
                        seeds.push(c.name.clone());
                        proof {
                            assert(seeds@[before.len() as int]@ == comps[i as int].name);
                            assert forall|a: int, b: int|
                                0 <= a < b < seeds@.len() implies seq_views(seeds@)[a]
                                != seq_views(seeds@)[b] by {
                                if b < before.len() {
                                    assert(seq_views(before)[a] != seq_views(before)[b]);
                                } else {
                                    assert(!seq_contains_str(before, comps[i as int].name));
                                    assert(seeds@[a] == before[a]);
                                }
                            }
                            assert forall|j: int|
                                0 <= j <= i && (#[trigger] comps[j]).start_by_default
                                    && !seq_contains_str(self.is_running@, comps[j].name)
                                    implies seq_contains_str(seeds@, comps[j].name) by {
                                if j < i {
                                    let w = choose|w: int|
                                        0 <= w < before.len() && before[w]@ == comps[j].name;
                                    assert(seeds@[w] == before[w]);
                                } else {
                                    assert(seeds@[before.len() as int]@ == comps[j].name);
                                }
                            }
                        }
                    }
                }
            }
            i = i + 1;
        }
        let ghost seeds0 = seeds@;
        let pending = self.collect_pending(seeds);
        let r = self.resolve_order(pending);
        proof {
            if r is Ok {
                let plan = r.unwrap();
                assert forall|x: int| 0 <= x < plan@.len() implies !seq_contains_str(
                    self.is_running@,
                    #[trigger] plan@[x]@,
                ) by {
                    assert(seq_contains_str(plan@, plan@[x]@));
                    assert(seq_contains_str(pending@, plan@[x]@));
                    let pi = choose|pi: int|
                        0 <= pi < pending@.len() && pending@[pi]@ == plan@[x]@;
                    assert(!seq_contains_str(self.is_running@, pending@[pi]@));
                }
                assert forall|j: int|
                    0 <= j < comps.len() && (#[trigger] comps[j]).start_by_default
                        && !seq_contains_str(self.is_running@, comps[j].name)
                        implies seq_contains_str(plan@, comps[j].name) by {
                    assert(seq_contains_str(seeds0, comps[j].name));
                    let w = choose|w: int|
                        0 <= w < seeds0.len() && seeds0[w]@ == comps[j].name;
                    assert(seq_contains_str(pending@, seeds0[w]@));
                    assert(seq_contains_str(plan@, comps[j].name));
                }
            }
        }
        r
    }
}

/// The names of the declared components, in declaration order.
pub open spec fn comp_names(comps: Seq<ComponentView>) -> Seq<Seq<char>> {
    comps.map_values(|c: ComponentView| c.name)
}

/// A component may stop when every running component that depends on it
/// already stands in the stop plan.
pub open spec fn spec_stoppable(
    comps: Seq<ComponentView>,
    running: Seq<String>,
    plan: Seq<String>,
    n: Seq<char>,
) -> bool {
    forall|j: int|
        0 <= j < comps.len() && seq_contains_str(running, (#[trigger] comps[j]).name) && comps[
            j
        ].dependencies.contains(n) ==> seq_contains_str(plan, comps[j].name)
}

/// Every entry of the stop plan could stop at its position: each running
/// component depending on it stands strictly earlier in the plan.
pub open spec fn respects_dependents(
    comps: Seq<ComponentView>,
    running: Seq<String>,
    plan: Seq<String>,
) -> bool {
    forall|i: int|
        0 <= i < plan.len() ==> spec_stoppable(comps, running, plan.take(i), #[trigger] plan[i]@)
}

/// A non-empty set of running components none of which can ever stop: each
/// has a running dependent that is itself stuck in the set.
pub open spec fn spec_stop_stuck(
    comps: Seq<ComponentView>,
    running: Seq<String>,
    stuck: Seq<String>,
) -> bool {
    stuck.len() > 0 && forall|i: int|
        0 <= i < stuck.len() ==> seq_contains_str(running, #[trigger] stuck[i]@) && exists|j: int|
            0 <= j < comps.len() && seq_contains_str(running, (#[trigger] comps[j]).name)
                && comps[j].dependencies.contains(stuck[i]@) && seq_contains_str(
                stuck,
                comps[j].name,
            )
}

impl ConfigurableEnvironment {
    /// Whether the named component could stop now, given what is running and
    /// what the stop plan already holds.
    fn stoppable(&self, name: &str, plan: &Vec<String>) -> (r: bool)
        ensures
            r == spec_stoppable(self.comps(), self.is_running@, plan@, name@),
    {
        let ghost comps = self.comps();
        let mut j: usize = 0;
        while j < self.cfg.components.len()
            invariant
                comps == self.comps(),
                comps.len() == self.cfg.components@.len(),
                0 <= j <= comps.len(),
                forall|jj: int|
                    0 <= jj < j && seq_contains_str(
                        self.is_running@,
                        (#[trigger] comps[jj]).name,
                    ) && comps[jj].dependencies.contains(name@) ==> seq_contains_str(
                        plan@,
                        comps[jj].name,
                    ),
            decreases comps.len() - j,
        {
            let c = &self.cfg.components[j];
            proof {
                assert(c.deep_view() == comps[j as int]);
                assert(c.dependencies.deep_view() =~= seq_views(c.dependencies@));
                lemma_seq_views_contains(c.dependencies@, name@);
            }
            if vec_contains_str(&self.is_running, c.name.as_str()) {
                if vec_contains_str(&c.dependencies, name) {
                    if !vec_contains_str(plan, c.name.as_str()) {
                        return false;
                    }
                }
            }
            j = j + 1;
        }
        true
    }

    /// Collects the running components that must stop before the target can:
    /// the target and, transitively, every running component depending on a
    /// member of the set.
    fn collect_stop_pending(&self, target: &str) -> (pending: Vec<String>)
        requires
            self.wf(),
            seq_contains_str(self.is_running@, target@),
        ensures
            seq_views(pending@).no_duplicates(),
            forall|i: int|
                0 <= i < pending@.len() ==> seq_contains_str(self.is_running@, #[trigger] pending@[
                    i
                ]@),
            seq_contains_str(pending@, target@),
            forall|i: int, j: int|
                0 <= i < pending@.len() && 0 <= j < self.comps().len() && seq_contains_str(
                    self.is_running@,
                    (#[trigger] self.comps()[j]).name,
                ) && self.comps()[j].dependencies.contains(#[trigger] pending@[i]@)
                    ==> seq_contains_str(pending@, self.comps()[j].name),
    {
        let ghost comps = self.comps();
        let ghost pool = seq![target@] + comp_names(comps);
        let mut pending: Vec<String> = Vec::new();
        pending.push(target.to_owned());
        proof {
            assert(pending@[0]@ == target@);
            assert(pool[0] == target@);
        }
        let mut qi: usize = 0;
        while qi < pending.len()
            invariant
                self.wf(),
                comps == self.comps(),
                comps.len() == self.cfg.components@.len(),
                pool == seq![target@] + comp_names(comps),
                0 <= qi <= pending@.len(),
                pending@.len() > 0,
                pending@[0]@ == target@,
                seq_views(pending@).no_duplicates(),
                forall|i: int|
                    0 <= i < pending@.len() ==> seq_contains_str(
                        self.is_running@,
                        #[trigger] pending@[i]@,
                    ),
                forall|i: int|
                    0 <= i < pending@.len() ==> pool.contains(#[trigger] pending@[i]@),
                forall|i: int, j: int|
                    0 <= i < qi && 0 <= j < comps.len() && seq_contains_str(
                        self.is_running@,
                        (#[trigger] comps[j]).name,
                    ) && comps[j].dependencies.contains(#[trigger] pending@[i]@)
                        ==> seq_contains_str(pending@, comps[j].name),
            decreases pool.len() + 1 - pending@.len(), pending@.len() - qi,
        {
            proof {
                lemma_unique_within_pool(seq_views(pending@), pool);
            }
            let current = pending[qi].clone();
            let ghost cur = pending@[qi as int]@;
            let ghost len_at_entry = pending@.len();
            let mut j: usize = 0;
            while j < self.cfg.components.len()
                invariant
                    self.wf(),
                    comps == self.comps(),
                    comps.len() == self.cfg.components@.len(),
                    pool == seq![target@] + comp_names(comps),
                    len_at_entry <= pending@.len(),
                    0 <= j <= comps.len(),
                    0 <= qi < pending@.len(),
                    pending@.len() > 0,
                    pending@[0]@ == target@,
                    pending@[qi as int]@ == cur,
                    current@ == cur,
                    seq_views(pending@).no_duplicates(),
                    forall|i: int|
                        0 <= i < pending@.len() ==> seq_contains_str(
                            self.is_running@,
                            #[trigger] pending@[i]@,
                        ),
                    forall|i: int|
                        0 <= i < pending@.len() ==> pool.contains(#[trigger] pending@[i]@),
                    forall|i: int, jj: int|
                        0 <= i < qi && 0 <= jj < comps.len() && seq_contains_str(
                            self.is_running@,
                            (#[trigger] comps[jj]).name,
                        ) && comps[jj].dependencies.contains(#[trigger] pending@[i]@)
                            ==> seq_contains_str(pending@, comps[jj].name),
                    forall|jj: int|
                        0 <= jj < j && seq_contains_str(
                            self.is_running@,
                            (#[trigger] comps[jj]).name,
                        ) && comps[jj].dependencies.contains(cur) ==> seq_contains_str(
                            pending@,
                            comps[jj].name,
                        ),
                decreases comps.len() - j,
            {
                let c = &self.cfg.components[j];
                proof {
                    assert(c.deep_view() == comps[j as int]);
                    assert(c.dependencies.deep_view() =~= seq_views(c.dependencies@));
                    lemma_seq_views_contains(c.dependencies@, cur);
                }
                if vec_contains_str(&self.is_running, c.name.as_str()) {
                    if vec_contains_str(&c.dependencies, current.as_str()) {
                        if !vec_contains_str(&pending, c.name.as_str()) {
                            let ghost before = pending@;
                            pending.push(c.name.clone());
                            proof {
                                let nv = comps[j as int].name;
                                assert(pending@[before.len() as int]@ == nv);
                                assert forall|i: int|
                                    0 <= i < pending@.len() implies pool.contains(
                                    #[trigger] pending@[i]@,
                                ) by {
                                    if i < before.len() {
                                        assert(pending@[i] == before[i]);
                                    } else {
                                        assert(comp_names(comps)[j as int] == nv);
                                        assert(pool[1 + j] == nv);
                                    }
                                }
                                assert forall|a: int, b: int|
                                    0 <= a < b < pending@.len() implies seq_views(pending@)[a]
                                    != seq_views(pending@)[b] by {
                                    if b < before.len() {
                                        assert(seq_views(before)[a] != seq_views(before)[b]);
                                    } else {
                                        assert(!seq_contains_str(before, nv));
                                        assert(pending@[a] == before[a]);
                                    }
                                }
                                assert forall|i: int, jj: int|
                                    0 <= i < qi && 0 <= jj < comps.len() && seq_contains_str(
                                        self.is_running@,
                                        (#[trigger] comps[jj]).name,
                                    ) && comps[jj].dependencies.contains(#[trigger] pending@[i]@)
                                        implies seq_contains_str(pending@, comps[jj].name) by {
                                    assert(pending@[i] == before[i]);
                                    assert(seq_contains_str(before, comps[jj].name));
                                    let w = choose|w: int|
                                        0 <= w < before.len() && before[w]@ == comps[jj].name;
                                    assert(pending@[w] == before[w]);
                                }
                                assert forall|jj: int|
                                    0 <= jj <= j && seq_contains_str(
                                        self.is_running@,
                                        (#[trigger] comps[jj]).name,
                                    ) && comps[jj].dependencies.contains(cur)
                                        implies seq_contains_str(pending@, comps[jj].name) by {
                                    if jj < j {
                                        let w = choose|w: int|
                                            0 <= w < before.len() && before[w]@ == comps[jj].name;
                                        assert(pending@[w] == before[w]);
                                    } else {
                                        assert(pending@[before.len() as int]@ == nv);
                                    }
                                }
                            }
                        }
                    }
                }
                j = j + 1;
            }
            qi = qi + 1;
            proof {
                lemma_unique_within_pool(seq_views(pending@), pool);
            }
        }
        proof {
            assert(seq_contains_str(pending@, pending@[0]@));
        }
        pending
    }

    /// Orders a set of running components so that dependents stop first, by
    /// repeatedly stopping whatever can stop; a round with no progress means
    /// the rest can never stop, which is reported as a dependency cycle.
    fn resolve_stop_order(&self, pending: Vec<String>) -> (r: Result<Vec<String>, Error>)
        requires
            self.wf(),
            seq_views(pending@).no_duplicates(),
            forall|i: int|
                0 <= i < pending@.len() ==> seq_contains_str(self.is_running@, #[trigger] pending@[
                    i
                ]@),
            forall|i: int, j: int|
                0 <= i < pending@.len() && 0 <= j < self.comps().len() && seq_contains_str(
                    self.is_running@,
                    (#[trigger] self.comps()[j]).name,
                ) && self.comps()[j].dependencies.contains(#[trigger] pending@[i]@)
                    ==> seq_contains_str(pending@, self.comps()[j].name),
        ensures
            r matches Ok(plan) ==> {
                &&& respects_dependents(self.comps(), self.is_running@, plan@)
                &&& seq_views(plan@).no_duplicates()
                &&& forall|n: Seq<char>|
                    #[trigger] seq_contains_str(plan@, n) == seq_contains_str(pending@, n)
            },
            r matches Err(e) ==> e is Config && exists|stuck: Seq<String>|
                spec_stop_stuck(self.comps(), self.is_running@, stuck),
    {
        let ghost comps = self.comps();
        let ghost pending0 = pending@;
        let mut plan: Vec<String> = Vec::new();
        let mut remaining = pending;
        while remaining.len() > 0
            invariant
                self.wf(),
                comps == self.comps(),
                seq_views(plan@).no_duplicates(),
                seq_views(remaining@).no_duplicates(),
                forall|i: int|
                    0 <= i < remaining@.len() ==> !seq_contains_str(plan@, #[trigger] remaining@[
                        i
                    ]@),
                forall|n: Seq<char>|
                    #[trigger] seq_contains_str(pending0, n) == (seq_contains_str(plan@, n)
                        || seq_contains_str(remaining@, n)),
                respects_dependents(comps, self.is_running@, plan@),
                forall|i: int|
                    0 <= i < remaining@.len() ==> seq_contains_str(
                        self.is_running@,
                        #[trigger] remaining@[i]@,
                    ),
                forall|i: int, j: int|
                    0 <= i < pending0.len() && 0 <= j < comps.len() && seq_contains_str(
                        self.is_running@,
                        (#[trigger] comps[j]).name,
                    ) && comps[j].dependencies.contains(#[trigger] pending0[i]@)
                        ==> seq_contains_str(pending0, comps[j].name),
            decreases remaining@.len(),
        {
            let mut k: usize = 0;
            let mut found: Option<usize> = None;
            while k < remaining.len()
                invariant
                    comps == self.comps(),
                    0 <= k <= remaining@.len(),
                    match found {
                        Some(f) => 0 <= f < remaining@.len() && spec_stoppable(
                            comps,
                            self.is_running@,
                            plan@,
                            remaining@[f as int]@,
                        ),
                        None => forall|j: int|
                            0 <= j < k ==> !spec_stoppable(
                                comps,
                                self.is_running@,
                                plan@,
                                #[trigger] remaining@[j]@,
                            ),
                    },
                decreases remaining@.len() - k,
            {
                if found.is_none() {
                    if self.stoppable(remaining[k].as_str(), &plan) {
                        found = Some(k);
                    }
                }
                k = k + 1;
            }
            match found {
                Some(f) => {
                    let ghost plan_before = plan@;
                    let ghost rem_before = remaining@;
                    let name = remaining.remove(f);
                    plan.push(name);
                    proof {
                        let moved = rem_before[f as int]@;
                        assert(plan@ == plan_before.push(rem_before[f as int]));
                        assert forall|a: int, b: int|
                            0 <= a < b < plan@.len() implies seq_views(plan@)[a] != seq_views(
                            plan@,
                        )[b] by {
                            if b < plan_before.len() {
                                assert(seq_views(plan_before)[a] != seq_views(plan_before)[b]);
                            } else {
                                assert(plan@[b]@ == moved);
                                assert(!seq_contains_str(plan_before, moved));
                                assert(plan@[a] == plan_before[a]);
                            }
                        }
                        assert forall|a: int, b: int|
                            0 <= a < b < remaining@.len() implies seq_views(remaining@)[a]
                            != seq_views(remaining@)[b] by {
                            let ra = if a < f { a } else { a + 1 };
                            let rb = if b < f { b } else { b + 1 };
                            assert(remaining@[a] == rem_before[ra]);
                            assert(remaining@[b] == rem_before[rb]);
                            assert(seq_views(rem_before)[ra] != seq_views(rem_before)[rb]);
                        }
                        assert forall|i: int|
                            0 <= i < remaining@.len() implies !seq_contains_str(
                            plan@,
                            #[trigger] remaining@[i]@,
                        ) by {
                            let ri = if i < f { i } else { i + 1 };
                            assert(remaining@[i] == rem_before[ri]);
                            if seq_contains_str(plan@, remaining@[i]@) {
                                let w = choose|w: int|
                                    0 <= w < plan@.len() && plan@[w]@ == remaining@[i]@;
                                if w < plan_before.len() {
                                    assert(seq_contains_str(plan_before, rem_before[ri]@));
                                } else {
                                    assert(seq_views(rem_before)[ri] != seq_views(rem_before)[
                                        f as int
                                    ]);
                                }
                            }
                        }
                        assert forall|n: Seq<char>|
                            #[trigger] seq_contains_str(pending0, n) == (seq_contains_str(
                            plan@,
                            n,
                        ) || seq_contains_str(remaining@, n)) by {
                            if seq_contains_str(plan@, n) {
                                let w = choose|w: int|
                                    0 <= w < plan@.len() && plan@[w]@ == n;
                                if w < plan_before.len() {
                                    assert(seq_contains_str(plan_before, n));
                                } else {
                                    assert(rem_before[f as int]@ == n);
                                    assert(seq_contains_str(rem_before, n));
                                }
                                assert(seq_contains_str(pending0, n));
                            }
                            if seq_contains_str(remaining@, n) {
                                let w = choose|w: int|
                                    0 <= w < remaining@.len() && remaining@[w]@ == n;
                                let rw = if w < f { w } else { w + 1 };
                                assert(remaining@[w] == rem_before[rw]);
                                assert(seq_contains_str(rem_before, n));
                                assert(seq_contains_str(pending0, n));
                            }
                            if seq_contains_str(pending0, n) {
                                if seq_contains_str(plan_before, n) {
                                    let w = choose|w: int|
                                        0 <= w < plan_before.len() && plan_before[w]@ == n;
                                    assert(plan@[w] == plan_before[w]);
                                    assert(seq_contains_str(plan@, n));
                                } else {
                                    assert(seq_contains_str(rem_before, n));
                                    let w = choose|w: int|
                                        0 <= w < rem_before.len() && rem_before[w]@ == n;
                                    if w == f {
                                        assert(plan@[plan_before.len() as int]@ == n);
                                        assert(seq_contains_str(plan@, n));
                                    } else {
                                        let rw = if w < f { w } else { w - 1 };
                                        assert(remaining@[rw] == rem_before[w]);
                                        assert(seq_contains_str(remaining@, n));
                                    }
                                }
                            }
                        }
                        assert forall|i: int|
                            0 <= i < plan@.len() implies spec_stoppable(
                            comps,
                            self.is_running@,
                            plan@.take(i),
                            #[trigger] plan@[i]@,
                        ) by {
                            if i < plan_before.len() {
                                assert(spec_stoppable(
                                    comps,
                                    self.is_running@,
                                    plan_before.take(i),
                                    plan_before[i]@,
                                ));
                                assert(plan@.take(i) =~= plan_before.take(i));
                            } else {
                                assert(plan@[i]@ == moved);
                                assert(plan@.take(i) =~= plan_before);
                                assert(spec_stoppable(comps, self.is_running@, plan_before, moved));
                            }
                        }
                    }
                },
                None => {
                    proof {
                        assert forall|i: int|
                            0 <= i < remaining@.len() implies seq_contains_str(
                            self.is_running@,
                            #[trigger] remaining@[i]@,
                        ) && exists|j: int|
                            0 <= j < comps.len() && seq_contains_str(
                                self.is_running@,
                                (#[trigger] comps[j]).name,
                            ) && comps[j].dependencies.contains(remaining@[i]@)
                                && seq_contains_str(remaining@, comps[j].name) by {
                            let n = remaining@[i]@;
                            assert(!spec_stoppable(comps, self.is_running@, plan@, n));
                            let j = choose|j: int|
                                0 <= j < comps.len() && seq_contains_str(
                                    self.is_running@,
                                    (#[trigger] comps[j]).name,
                                ) && comps[j].dependencies.contains(n) && !seq_contains_str(
                                    plan@,
                                    comps[j].name,
                                );
                            assert(seq_contains_str(pending0, n));
                            let pi = choose|pi: int|
                                0 <= pi < pending0.len() && pending0[pi]@ == n;
                            assert(seq_contains_str(pending0, comps[j].name));
                            assert(seq_contains_str(remaining@, comps[j].name));
                        }
                        assert(spec_stop_stuck(comps, self.is_running@, remaining@));
                    }
                    let mut msg = String::new();
                    msg.append("Circular dependency detected while stopping components: ");
                    let listing = join_strings(&remaining, ", ");
                    msg.append(listing.as_str());
                    return Err(Error::Config(msg));
                },
            }
        }
        proof {
            assert forall|n: Seq<char>|
                #[trigger] seq_contains_str(plan@, n) == seq_contains_str(pending0, n) by {
                assert(seq_contains_str(pending0, n) == (seq_contains_str(plan@, n)
                    || seq_contains_str(remaining@, n)));
            }
        }
        Ok(plan)
    }

    /// The components to stop, in order, so that the named component is no
    /// longer running: its running transitive dependents first, each after
    /// its own dependents, the target last among them. Not running: an empty
    /// plan. An unknown name: a configuration error.
    pub fn stop_plan(&self, component_name: &str) -> (r: Result<Vec<String>, Error>)
        requires
            self.wf(),
        ensures
            r matches Ok(plan) ==> {
                &&& respects_dependents(self.comps(), self.is_running@, plan@)
                &&& seq_views(plan@).no_duplicates()
                &&& forall|i: int|
                    0 <= i < plan@.len() ==> seq_contains_str(
                        self.is_running@,
                        #[trigger] plan@[i]@,
                    )
                &&& !self.running_views().contains(component_name@) ==> plan@.len() == 0
                &&& self.running_views().contains(component_name@) ==> seq_contains_str(
                    plan@,
                    component_name@,
                )
            },
            r matches Err(e) ==> e is Config && (!known(self.comps(), component_name@)
                || exists|stuck: Seq<String>|
                    spec_stop_stuck(self.comps(), self.is_running@, stuck)),
            !self.running_views().contains(component_name@) ==> r is Ok,
    {
        if !self.component_is_running(component_name) {
            return Ok(Vec::new());
        }
        if self.cfg.get_component(component_name).is_none() {
            let mut msg = String::new();
            msg.append("Component ");
            msg.append(component_name);
            msg.append(" not found in config");
            return Err(Error::Config(msg));
        }
        proof {
            lemma_seq_views_contains(self.is_running@, component_name@);
        }
        let pending = self.collect_stop_pending(component_name);
        let r = self.resolve_stop_order(pending);
        proof {
            if r is Ok {
                let plan = r.unwrap();
                assert forall|i: int| 0 <= i < plan@.len() implies seq_contains_str(
                    self.is_running@,
                    #[trigger] plan@[i]@,
                ) by {
                    assert(seq_contains_str(plan@, plan@[i]@));
                    assert(seq_contains_str(pending@, plan@[i]@));
                    let pi = choose|pi: int|
                        0 <= pi < pending@.len() && pending@[pi]@ == plan@[i]@;
                    assert(seq_contains_str(self.is_running@, pending@[pi]@));
                }
                assert(seq_contains_str(plan@, component_name@));
            }
        }
        r
    }

    /// The components to stop for a whole-environment teardown: everything
    /// running, each after its running dependents.
    pub fn stop_all_plan(&self) -> (r: Result<Vec<String>, Error>)
        requires
            self.wf(),
        ensures
            r matches Ok(plan) ==> {
                &&& respects_dependents(self.comps(), self.is_running@, plan@)
                &&& seq_views(plan@).no_duplicates()
                &&& forall|n: Seq<char>|
                    #[trigger] seq_contains_str(plan@, n) == seq_contains_str(
                        self.is_running@,
                        n,
                    )
            },
            r matches Err(e) ==> e is Config && exists|stuck: Seq<String>|
                spec_stop_stuck(self.comps(), self.is_running@, stuck),
    {
        let pending = clone_strings(&self.is_running);
        self.resolve_stop_order(pending)
    }
}

/// Two components that each name the other as a dependency can never both be
/// planned: an ordering that puts each strictly before the other does not
/// exist, so resolution must report a cycle error rather than pick an order.
pub proof fn lemma_mutual_dependency_unplannable(
    comps: Seq<ComponentView>,
    running: Seq<String>,
    plan: Seq<String>,
    a: Seq<char>,
    b: Seq<char>,
)
    requires
        respects_deps(comps, running, plan),
        seq_views(plan).no_duplicates(),
        deps_of(comps, a).contains(b),
        deps_of(comps, b).contains(a),
        !seq_contains_str(running, a),
        !seq_contains_str(running, b),
    ensures
        !seq_contains_str(plan, a),
{
    if seq_contains_str(plan, a) {
        let ia = choose|ia: int| 0 <= ia < plan.len() && plan[ia]@ == a;
        assert(spec_startable(comps, running, plan.take(ia), plan[ia]@));
        let da = choose|da: int| 0 <= da < deps_of(comps, a).len() && deps_of(comps, a)[da]
            == b;
        assert(seq_contains_str(plan.take(ia), b));
        let jb = choose|jb: int| 0 <= jb < plan.take(ia).len() && plan.take(ia)[jb]@ == b;
        assert(plan[jb]@ == b);
        assert(spec_startable(comps, running, plan.take(jb), plan[jb]@));
        let db = choose|db: int| 0 <= db < deps_of(comps, b).len() && deps_of(comps, b)[db]
            == a;
        assert(seq_contains_str(plan.take(jb), a));
        let ka = choose|ka: int| 0 <= ka < plan.take(jb).len() && plan.take(jb)[ka]@ == a;
        assert(plan[ka]@ == a);
        assert(ka < jb < ia);
        assert(seq_views(plan)[ka] == seq_views(plan)[ia]);
    }
}

} // verus!
