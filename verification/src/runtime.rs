//! The component runtime's identity rule: when a parent re-evaluates and
//! produces a child at a slot, the existing child scope is reused exactly
//! when component function and key agree; its props are updated, and only a
//! real props change (by props equality) marks it dirty. Anything else
//! disposes the old scope and creates a fresh one.

use vstd::prelude::*;

use crate::reactive::Runtime;
use crate::reactive::distinct;
use crate::value::Props;

verus! {

broadcast use vstd::seq_lib::lemma_seq_contains_after_push;

/// What `update_slot` did with the slot.
#[derive(Clone, Copy, Debug, PartialEq, Eq, Structural)]
pub enum SlotAction {
    /// The slot was empty: a scope was created.
    Created,
    /// Same component, same key, equal props: the scope is reused as it is.
    Reused,
    /// Same component and key but changed props: reused, props stored,
    /// marked dirty and enqueued for the next flush.
    ReusedDirty,
    /// Different component or key: the old scope was disposed, with its
    /// whole subtree, and a fresh scope created.
    Replaced,
}

/// Whether two slot keys agree.
pub fn key_eq(a: Option<u64>, b: Option<u64>) -> (r: bool)
    ensures
        r == (a == b),
{
    match (a, b) {
        (Some(x), Some(y)) => x == y,
        (None, None) => true,
        _ => false,
    }
}

/// Reconcile one slot of a re-evaluating parent.
pub fn update_slot(
    rt: &mut Runtime,
    parent: Option<usize>,
    existing: Option<usize>,
    comp: u64,
    key: Option<u64>,
    props: Props,
) -> (r: (usize, SlotAction))
    requires
        old(rt).wf(),
        match parent {
            Some(p) => old(rt).scope_alive(p),
            None => true,
        },
        match existing {
            Some(e) => old(rt).scope_alive(e),
            None => true,
        },
        match (existing, parent) {
            (Some(e), Some(p)) => !old(rt).in_subtree(e, p),
            _ => true,
        },
        old(rt).run_stack@.len() == 0,
    ensures
        final(rt).wf(),
        final(rt).scope_alive(r.0),
        final(rt).scope(r.0).comp == comp,
        final(rt).scope(r.0).key == key,
        final(rt).scope(r.0).props@ =~= props@,
        match r.1 {
            SlotAction::Created => existing is None && r.0 == old(rt).n_scopes(),
            SlotAction::Reused => {
                &&& existing == Some(r.0)
                &&& old(rt).scope(r.0).comp == comp
                &&& old(rt).scope(r.0).key == key
                &&& old(rt).scope(r.0).props@ =~= props@
                &&& *final(rt) == *old(rt)
            },
            SlotAction::ReusedDirty => {
                &&& existing == Some(r.0)
                &&& old(rt).scope(r.0).comp == comp
                &&& old(rt).scope(r.0).key == key
                &&& !(old(rt).scope(r.0).props@ =~= props@)
                &&& final(rt).scope(r.0).dirty
                &&& (old(rt).scope(r.0).dirty || final(rt).queue@.contains(r.0))
                &&& final(rt).signals == old(rt).signals
                &&& forall|c2: usize|
                    c2 < old(rt).n_scopes() && c2 != r.0 ==> final(rt).scope(c2) == old(rt).scope(
                        c2,
                    )
            },
            SlotAction::Replaced => {
                &&& existing matches Some(e) && !(old(rt).scope(e).comp == comp && old(rt).scope(
                    e,
                ).key == key) && !final(rt).scope_alive(e)
                &&& r.0 == old(rt).n_scopes()
            },
        },
{
    match existing {
        None => {
            let c = rt.create_scope(parent, comp, key, props);
            (c, SlotAction::Created)
        },
        Some(e) => {
            let same = rt.scopes[e].comp == comp && key_eq(rt.scopes[e].key, key);
            if same {
                if props.eq_props(&rt.scopes[e].props) {
                    (e, SlotAction::Reused)
                } else {
                    rt.scopes[e].props = props;
                    let already = rt.scopes[e].dirty;
                    if !already {
                        rt.queue.push(e);
                        rt.scopes[e].dirty = true;
                        proof {
                            assert(!old(rt).queue@.contains(e)) by {
                                if old(rt).queue@.contains(e) {
                                    let j = choose|j: int|
                                        0 <= j < old(rt).queue@.len() && old(rt).queue@[j] == e;
                                    assert(old(rt).scope(old(rt).queue@[j]).dirty);
                                    assert(false);
                                }
                            }
                            assert(rt.queue@ == old(rt).queue@.push(e));
                            assert(distinct(rt.queue@)) by {
                                assert forall|a: int, b: int|
                                    0 <= a < b < rt.queue@.len() implies rt.queue@[a]
                                    != rt.queue@[b] by {
                                    if b == old(rt).queue@.len() {
                                        assert(old(rt).queue@.contains(old(rt).queue@[a]));
                                    }
                                }
                            }
                            assert forall|j: int| 0 <= j < rt.queue@.len() implies rt.scope_alive(
                                #[trigger] rt.queue@[j],
                            ) && rt.scope(rt.queue@[j]).dirty by {
                                if j < old(rt).queue@.len() {
                                    assert(rt.queue@[j] == old(rt).queue@[j]);
                                    assert(old(rt).queue@.contains(old(rt).queue@[j]));
                                    assert(old(rt).scope_alive(old(rt).queue@[j]));
                                    assert(old(rt).scope(old(rt).queue@[j]).dirty);
                                    assert(rt.queue@[j] != e);
                                    assert(rt.scope(rt.queue@[j]) == old(rt).scope(rt.queue@[j]));
                                } else {
                                    assert(rt.queue@[j] == e);
                                }
                            }
                        }
                    } else {
                        proof {
                            assert forall|j: int| 0 <= j < rt.queue@.len() implies rt.scope_alive(
                                #[trigger] rt.queue@[j],
                            ) && rt.scope(rt.queue@[j]).dirty by {
                                assert(old(rt).queue@.contains(old(rt).queue@[j]));
                                assert(old(rt).scope_alive(old(rt).queue@[j]));
                                assert(old(rt).scope(old(rt).queue@[j]).dirty);
                                if rt.queue@[j] != e {
                                    assert(rt.scope(rt.queue@[j]) == old(rt).scope(rt.queue@[j]));
                                }
                            }
                        }
                    }
                    proof {
                        assert forall|c2: usize|
                            c2 < rt.n_scopes() && (#[trigger] rt.scope(c2)).dirty implies rt.scope(
                            c2,
                        ).alive by {
                            assert(old(rt).wf_scope(c2));
                            if c2 != e {
                                assert(rt.scope(c2) == old(rt).scope(c2));
                            }
                        }
                        crate::reactive::lemma_wf_core_frame(*old(rt), *rt);
                    }
                    (e, SlotAction::ReusedDirty)
                }
            } else {
                rt.dispose(e);
                let c = rt.create_scope(parent, comp, key, props);
                proof {
                    old(rt).lemma_subtree_ge(e, e);
                }
                (c, SlotAction::Replaced)
            }
        },
    }
}

} // verus!
