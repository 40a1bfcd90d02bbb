//! The background-task registry: dense ids for spawned tasks, join-once
//! bookkeeping, and the short-circuit behaviour of joining a batch.

use vstd::prelude::*;

use crate::Error;

verus! {

/// The first index of `x` in `s`, or -1 if it does not occur.
pub open spec fn idx_of_id(s: Seq<u64>, x: u64) -> int
    decreases s.len(),
{
    if s.len() == 0 {
        -1
    } else if s[0] == x {
        0
    } else {
        let r = idx_of_id(s.drop_first(), x);
        if r == -1 {
            -1
        } else {
            r + 1
        }
    }
}

pub proof fn lemma_idx_of_id(s: Seq<u64>, x: u64)
    ensures
        idx_of_id(s, x) == -1 ==> !s.contains(x),
        idx_of_id(s, x) != -1 ==> {
            let k = idx_of_id(s, x);
            &&& 0 <= k < s.len()
            &&& s[k] == x
            &&& forall|j: int| 0 <= j < k ==> s[j] != x
        },
    decreases s.len(),
{
    if s.len() > 0 && s[0] != x {
        lemma_idx_of_id(s.drop_first(), x);
        assert(forall|i: int| 1 <= i < s.len() ==> s[i] == s.drop_first()[i - 1]);
        if idx_of_id(s, x) == -1 {
            assert forall|i: int| 0 <= i < s.len() implies s[i] != x by {
                if i >= 1 {
                    assert(s[i] == s.drop_first()[i - 1]);
                }
            }
        }
    }
}

/// The live set after an id is claimed for joining: unchanged if the id is
/// not there, with its occurrence taken out otherwise.
pub open spec fn live_after_claim(s: Seq<u64>, id: u64) -> Seq<u64> {
    if !s.contains(id) {
        s
    } else {
        s.remove(idx_of_id(s, id))
    }
}

/// Claiming an id takes exactly it out of the live set: once claimed, the
/// same id is no longer there, so a second join of it must fail.
pub proof fn lemma_claim_removes_id(s: Seq<u64>, id: u64)
    requires
        s.no_duplicates(),
    ensures
        !live_after_claim(s, id).contains(id),
        forall|x: u64| x != id ==> live_after_claim(s, id).contains(x) == s.contains(x),
{
    lemma_idx_of_id(s, id);
    if s.contains(id) {
        let k = idx_of_id(s, id);
        let s2 = s.remove(k);
        assert forall|x: u64| s2.contains(x) implies s.contains(x) && (x == id ==> false) by {
            let i = choose|i: int| 0 <= i < s2.len() && s2[i] == x;
            let ri = if i < k {
                i
            } else {
                i + 1
            };
            assert(s[ri] == x);
            if x == id {
                assert(ri != k);
                assert(s[ri] == s[k]);
            }
        }
        assert forall|x: u64| x != id && s.contains(x) implies s2.contains(x) by {
            let i = choose|i: int| 0 <= i < s.len() && s[i] == x;
            assert(i != k);
            let ri = if i < k {
                i
            } else {
                i - 1
            };
            assert(s2[ri] == x);
        }
    }
}

/// Assigns dense ids to spawned background tasks and tracks which are still
/// joinable; an id leaves the registry exactly once, at the join that claims
/// it.
#[derive(Debug)]
pub struct TaskRegistry {
    pub next_id: u64,
    pub live: Vec<u64>,
}

impl TaskRegistry {
    /// Ids are never listed twice and are all below the next to be assigned.
    pub open spec fn wf(&self) -> bool {
        &&& self.live@.no_duplicates()
        &&& forall|i: int| 0 <= i < self.live@.len() ==> #[trigger] self.live@[i] < self.next_id
    }

    /// An empty registry; ids are assigned densely from zero.
    pub fn new() -> (r: Self)
        ensures
            r.next_id == 0,
            r.live@ == Seq::<u64>::empty(),
            r.wf(),
    {
        let r = TaskRegistry { next_id: 0, live: Vec::new() };
        proof {
            assert(r.live@ =~= Seq::<u64>::empty());
        }
        r
    }

    /// Registers a freshly spawned task and hands out its id: the next dense
    /// id, which joins the live set.
    pub fn register(&mut self) -> (id: u64)
        requires
            old(self).wf(),
            old(self).next_id < u64::MAX,
        ensures
            id == old(self).next_id,
            final(self).next_id == old(self).next_id + 1,
            final(self).live@ == old(self).live@.push(id),
            final(self).wf(),
    {
        let id = self.next_id;
        self.live.push(id);
        self.next_id = self.next_id + 1;
        proof {
            assert forall|a: int, b: int|
                0 <= a < b < self.live@.len() implies self.live@[a] != self.live@[b] by {
                if b < old(self).live@.len() {
                    assert(old(self).live@[a] != old(self).live@[b]);
                } else {
                    assert(self.live@[b] == id);
                    assert(old(self).live@[a] < id);
                }
            }
        }
        id
    }

    /// Claims an id for joining: the id leaves the live set, and an id that
    /// is not there — never assigned, or already joined — is an error.
    pub fn claim(&mut self, id: u64) -> (r: Result<(), Error>)
        requires
            old(self).wf(),
        ensures
            r is Ok <==> old(self).live@.contains(id),
            final(self).live@ == live_after_claim(old(self).live@, id),
            final(self).next_id == old(self).next_id,
            r matches Err(e) ==> e is Other && e.message_view() == "No such task"@,
            final(self).wf(),
    {
        proof {
            lemma_idx_of_id(self.live@, id);
        }
        let mut i: usize = 0;
        while i < self.live.len()
            invariant
                old(self).wf(),
                *self == *old(self),
                0 <= i <= self.live@.len(),
                forall|j: int| 0 <= j < i ==> self.live@[j] != id,
                idx_of_id(self.live@, id) != -1 ==> {
                    let k = idx_of_id(self.live@, id);
                    &&& 0 <= k < self.live@.len()
                    &&& self.live@[k] == id
                    &&& forall|j: int| 0 <= j < k ==> self.live@[j] != id
                },
                idx_of_id(self.live@, id) == -1 ==> !self.live@.contains(id),
            decreases self.live@.len() - i,
        {
            if self.live[i] == id {
                proof {
                    assert(self.live@.contains(id));
                }
                self.live.remove(i);
                proof {
                    let ov = old(self).live@;
                    let k = i as int;
                    assert(self.live@ =~= ov.remove(k));
                    assert forall|a: int, b: int|
                        0 <= a < b < self.live@.len() implies self.live@[a] != self.live@[b] by {
                        let ra = if a < k {
                            a
                        } else {
                            a + 1
                        };
                        let rb = if b < k {
                            b
                        } else {
                            b + 1
                        };
                        assert(self.live@[a] == ov[ra]);
                        assert(self.live@[b] == ov[rb]);
                    }
                }
                return Ok(());
            }
            i = i + 1;
        }
        proof {
            if self.live@.contains(id) {
                let j = choose|j: int| 0 <= j < self.live@.len() && self.live@[j] == id;
                assert(false);
            }
        }
        let mut msg = String::new();
        msg.append("No such task");
        Err(Error::Other(msg))
    }
}

/// The error a joined task propagates: nothing for a task that finished
/// cleanly, its failure text otherwise.
pub fn task_outcome(finished_ok: bool, failure: String) -> (r: Result<(), Error>)
    ensures
        finished_ok <==> r is Ok,
        r matches Err(e) ==> e is Test && e.message_view() == "Task failed: "@ + failure@,
{
    if finished_ok {
        Ok(())
    } else {
        let mut msg = String::new();
        msg.append("Task failed: ");
        msg.append(failure.as_str());
        Err(Error::Test(msg))
    }
}

/// A batch join over a trace of task outcomes, claiming ids in the given
/// order: it stops at the first id that is not live or whose task failed,
/// and never claims anything after that.
pub open spec fn batch_join(live: Seq<u64>, ids: Seq<u64>, outcomes: Seq<bool>) -> (Seq<u64>, bool)
    decreases ids.len(),
{
    if ids.len() == 0 {
        (live, true)
    } else if !live.contains(ids[0]) {
        (live, false)
    } else {
        let l2 = live_after_claim(live, ids[0]);
        if ids.len() > outcomes.len() || !outcomes[0] {
            (l2, false)
        } else {
            batch_join(l2, ids.drop_first(), outcomes.drop_first())
        }
    }
}

/// How many ids a batch join claims before it stops: all of them on success,
/// those up to and including the first failure otherwise.
pub open spec fn batch_stop_index(live: Seq<u64>, ids: Seq<u64>, outcomes: Seq<bool>) -> int
    decreases ids.len(),
{
    if ids.len() == 0 {
        0
    } else if !live.contains(ids[0]) {
        0
    } else if ids.len() > outcomes.len() || !outcomes[0] {
        1
    } else {
        1 + batch_stop_index(live_after_claim(live, ids[0]), ids.drop_first(), outcomes.drop_first())
    }
}

pub proof fn lemma_batch_stop_index_nonneg(live: Seq<u64>, ids: Seq<u64>, outcomes: Seq<bool>)
    ensures
        0 <= batch_stop_index(live, ids, outcomes) <= ids.len(),
    decreases ids.len(),
{
    if ids.len() > 0 && live.contains(ids[0]) && ids.len() <= outcomes.len() && outcomes[0] {
        lemma_batch_stop_index_nonneg(
            live_after_claim(live, ids[0]),
            ids.drop_first(),
            outcomes.drop_first(),
        );
    }
}

/// A batch join never touches the ids after its stopping point: a live id
/// that the claimed prefix does not name is still live afterwards. In
/// particular, when the first id's task fails, every later id stays
/// joinable.
pub proof fn lemma_batch_join_short_circuits(
    live: Seq<u64>,
    ids: Seq<u64>,
    outcomes: Seq<bool>,
    x: u64,
)
    requires
        live.no_duplicates(),
        live.contains(x),
        forall|j: int| 0 <= j < batch_stop_index(live, ids, outcomes) ==> ids[j] != x,
    ensures
        batch_join(live, ids, outcomes).0.contains(x),
    decreases ids.len(),
{
    if ids.len() == 0 || !live.contains(ids[0]) {
    } else {
        if ids.len() <= outcomes.len() && outcomes[0] {
            lemma_batch_stop_index_nonneg(
                live_after_claim(live, ids[0]),
                ids.drop_first(),
                outcomes.drop_first(),
            );
        }
        assert(batch_stop_index(live, ids, outcomes) >= 1);
        assert(ids[0] != x);
        lemma_claim_removes_id(live, ids[0]);
        let l2 = live_after_claim(live, ids[0]);
        if ids.len() > outcomes.len() || !outcomes[0] {
        } else {
            let s2 = batch_stop_index(l2, ids.drop_first(), outcomes.drop_first());
            lemma_batch_stop_index_nonneg(l2, ids.drop_first(), outcomes.drop_first());
            assert(batch_stop_index(live, ids, outcomes) == 1 + s2);
            assert forall|j: int| 0 <= j < s2 implies ids.drop_first()[j] != x by {
                assert(ids.drop_first()[j] == ids[j + 1]);
            }
            lemma_idx_of_id(live, ids[0]);
            assert(l2 =~= live.remove(idx_of_id(live, ids[0])));
            let k = idx_of_id(live, ids[0]);
            assert forall|a: int, b: int|
                0 <= a < b < l2.len() implies l2[a] != l2[b] by {
                let ra = if a < k {
                    a
                } else {
                    a + 1
                };
                let rb = if b < k {
                    b
                } else {
                    b + 1
                };
                assert(l2[a] == live[ra]);
                assert(l2[b] == live[rb]);
            }
            assert(forall|j: int|
                0 <= j < ids.drop_first().len() ==> ids.drop_first()[j] == ids[j + 1]);
            lemma_batch_join_short_circuits(l2, ids.drop_first(), outcomes.drop_first(), x);
        }
    }
}

} // verus!
