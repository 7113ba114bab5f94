//! The reactivity kernel: signal cells, dependency-tracking scopes, and the
//! scheduler queue that a flush drains.
//!
//! Signals and scopes live in one arena, addressed by index. The dependency
//! graph is bidirectional: a signal knows the scopes that read it during
//! their most recent evaluation, and a scope knows the signals it read, so
//! disposal can unlink in one pass over the links.

use vstd::prelude::*;

use crate::value::Props;
use crate::value::Value;

verus! {

broadcast use vstd::seq_lib::lemma_seq_contains_after_push;

/// No index occurs twice.
pub open spec fn distinct(s: Seq<usize>) -> bool {
    forall|i: int, j: int| 0 <= i < j < s.len() ==> s[i] != s[j]
}

/// A mutable reactive cell.
pub struct SignalCell {
    /// The current value.
    pub value: Value,
    /// The scopes that read this signal during their most recent evaluation.
    pub dependents: Vec<usize>,
    /// False once the owning scope was disposed.
    pub alive: bool,
    /// The scope that created the cell, if it was created inside one.
    pub owner: Option<usize>,
}

/// One unit of reactive work: a component instance or an effect.
pub struct ScopeRec {
    /// The enclosing scope; always an earlier index.
    pub parent: Option<usize>,
    /// The signals this scope read during its most recent evaluation.
    pub subs: Vec<usize>,
    /// True when a dependency changed and the scope awaits re-evaluation.
    pub dirty: bool,
    /// False once disposed.
    pub alive: bool,
    /// Cleanup tokens, in registration order; run in reverse on disposal.
    pub cleanups: Vec<u64>,
    /// The component function this scope evaluates, by identifier.
    pub comp: u64,
    /// The reconciliation key of the slot this scope occupies.
    pub key: Option<u64>,
    /// The props of the most recent evaluation.
    pub props: Props,
}

/// The whole reactive state: arena, scheduler queue, and run stack.
pub struct Runtime {
    pub signals: Vec<SignalCell>,
    pub scopes: Vec<ScopeRec>,
    /// Scopes marked dirty and awaiting the next flush, in mark order.
    pub queue: Vec<usize>,
    /// The scopes currently being evaluated, innermost last.
    pub run_stack: Vec<usize>,
    /// Every cleanup token run so far, in execution order.
    pub cleanup_log: Vec<u64>,
    /// True between the first write of a tick and the flush it enqueued.
    pub flush_pending: bool,
    /// How many flushes have been taken.
    pub flushes: u64,
}

impl Runtime {
    pub open spec fn n_sigs(&self) -> nat {
        self.signals@.len()
    }

    pub open spec fn n_scopes(&self) -> nat {
        self.scopes@.len()
    }

    pub open spec fn sig(&self, g: usize) -> SignalCell {
        self.signals@[g as int]
    }

    pub open spec fn scope(&self, c: usize) -> ScopeRec {
        self.scopes@[c as int]
    }

    pub open spec fn sig_alive(&self, g: usize) -> bool {
        g < self.n_sigs() && self.sig(g).alive
    }

    pub open spec fn scope_alive(&self, c: usize) -> bool {
        c < self.n_scopes() && self.scope(c).alive
    }

    /// Scope `c` is in signal `g`'s dependent set.
    pub open spec fn depends(&self, g: usize, c: usize) -> bool {
        g < self.n_sigs() && self.sig(g).dependents@.contains(c)
    }

    /// Signal `g` is in scope `c`'s subscription set.
    pub open spec fn subscribed(&self, c: usize, g: usize) -> bool {
        c < self.n_scopes() && self.scope(c).subs@.contains(g)
    }

    pub open spec fn queued(&self, c: usize) -> bool {
        self.queue@.contains(c)
    }

    /// The scope currently being evaluated, if any.
    pub open spec fn running(&self) -> Option<usize> {
        if self.run_stack@.len() == 0 {
            None
        } else {
            Some(self.run_stack@.last())
        }
    }

    pub open spec fn wf_sig(&self, g: usize) -> bool {
        &&& distinct(self.sig(g).dependents@)
        &&& self.sig(g).alive ==> {
            &&& forall|c: usize|
                #[trigger] self.sig(g).dependents@.contains(c) ==> self.scope_alive(c)
            &&& match self.sig(g).owner {
                Some(o) => self.scope_alive(o),
                None => true,
            }
        }
        &&& !self.sig(g).alive ==> self.sig(g).dependents@.len() == 0
    }

    pub open spec fn wf_scope(&self, c: usize) -> bool {
        &&& distinct(self.scope(c).subs@)
        &&& self.scope(c).alive ==> forall|g: usize|
            #[trigger] self.scope(c).subs@.contains(g) ==> self.sig_alive(g)
        &&& !self.scope(c).alive ==> self.scope(c).subs@.len() == 0 && !self.scope(c).dirty
        &&& match self.scope(c).parent {
            Some(p) => p < c && (self.scope(c).alive ==> self.scope_alive(p)),
            None => true,
        }
    }

    /// The two sides of the dependency graph agree.
    pub open spec fn wf_links(&self) -> bool {
        forall|g: usize, c: usize|
            g < self.n_sigs() && c < self.n_scopes() ==> (#[trigger] self.depends(g, c)
                <==> #[trigger] self.subscribed(c, g))
    }

    pub open spec fn wf_queue(&self) -> bool {
        &&& distinct(self.queue@)
        &&& forall|i: int|
            0 <= i < self.queue@.len() ==> self.scope_alive(#[trigger] self.queue@[i])
                && self.scope(self.queue@[i]).dirty
    }

    pub open spec fn wf_stack(&self) -> bool {
        &&& distinct(self.run_stack@)
        &&& forall|i: int|
            0 <= i < self.run_stack@.len() ==> self.scope_alive(#[trigger] self.run_stack@[i])
    }

    /// The kernel invariant every operation preserves.
    pub open spec fn wf(&self) -> bool {
        &&& forall|g: usize| g < self.n_sigs() ==> #[trigger] self.wf_sig(g)
        &&& forall|c: usize| c < self.n_scopes() ==> #[trigger] self.wf_scope(c)
        &&& self.wf_links()
        &&& self.wf_queue()
        &&& self.wf_stack()
    }

    /// A fresh runtime: no signals, no scopes, nothing pending.
    pub fn new() -> (rt: Runtime)
        ensures
            rt.wf(),
            rt.n_sigs() == 0,
            rt.n_scopes() == 0,
            rt.queue@.len() == 0,
            rt.run_stack@.len() == 0,
            rt.cleanup_log@.len() == 0,
            !rt.flush_pending,
            rt.flushes == 0,
    {
        Runtime {
            signals: Vec::new(),
            scopes: Vec::new(),
            queue: Vec::new(),
            run_stack: Vec::new(),
            cleanup_log: Vec::new(),
            flush_pending: false,
            flushes: 0,
        }
    }

    /// Create a scope for one component instance at a slot.
    pub fn create_scope(
        &mut self,
        parent: Option<usize>,
        comp: u64,
        key: Option<u64>,
        props: Props,
    ) -> (c: usize)
        requires
            old(self).wf(),
            match parent {
                Some(p) => old(self).scope_alive(p),
                None => true,
            },
        ensures
            final(self).wf(),
            c == old(self).n_scopes(),
            final(self).n_scopes() == old(self).n_scopes() + 1,
            forall|c2: usize| c2 < old(self).n_scopes() ==> final(self).scope(c2) == old(self).scope(c2),
            final(self).scope(c).alive,
            !final(self).scope(c).dirty,
            final(self).scope(c).subs@.len() == 0,
            final(self).scope(c).cleanups@.len() == 0,
            final(self).scope(c).parent == parent,
            final(self).scope(c).comp == comp,
            final(self).scope(c).key == key,
            final(self).scope(c).props == props,
            final(self).signals == old(self).signals,
            final(self).queue == old(self).queue,
            final(self).run_stack == old(self).run_stack,
            final(self).cleanup_log == old(self).cleanup_log,
            final(self).flush_pending == old(self).flush_pending,
            final(self).flushes == old(self).flushes,
    {
        let c = self.scopes.len();
        self.scopes.push(
            ScopeRec {
                parent,
                subs: Vec::new(),
                dirty: false,
                alive: true,
                cleanups: Vec::new(),
                comp,
                key,
                props,
            },
        );
        proof {
            assert forall|c2: usize| c2 < self.n_scopes() implies #[trigger] self.wf_scope(c2) by {
                if c2 < old(self).n_scopes() {
                    assert(old(self).wf_scope(c2));
                    assert(self.scope(c2) == old(self).scope(c2));
                }
            }
            assert forall|g2: usize| g2 < self.n_sigs() implies #[trigger] self.wf_sig(g2) by {
                assert(old(self).wf_sig(g2));
                assert(self.sig(g2) == old(self).sig(g2));
            }
            assert forall|g2: usize, c2: usize|
                g2 < self.n_sigs() && c2 < self.n_scopes() implies (#[trigger] self.depends(
                g2,
                c2,
            ) <==> #[trigger] self.subscribed(c2, g2)) by {
                assert(old(self).wf_sig(g2));
                if c2 < old(self).n_scopes() {
                    assert(old(self).depends(g2, c2) <==> old(self).subscribed(c2, g2));
                } else {
                    assert(!self.subscribed(c2, g2));
                    if self.depends(g2, c2) {
                        assert(old(self).sig(g2).dependents@.contains(c2));
                        if old(self).sig(g2).alive {
                            assert(old(self).scope_alive(c2));
                        }
                        assert(false);
                    }
                }
            }
        }
        c
    }

    /// Create a signal cell. Its owner is the scope being evaluated, if any.
    pub fn create_signal(&mut self, init: Value) -> (g: usize)
        requires
            old(self).wf(),
        ensures
            final(self).wf(),
            g == old(self).n_sigs(),
            final(self).n_sigs() == old(self).n_sigs() + 1,
            forall|g2: usize| g2 < old(self).n_sigs() ==> final(self).sig(g2) == old(self).sig(g2),
            final(self).sig(g).alive,
            final(self).sig(g).value == init,
            final(self).sig(g).dependents@.len() == 0,
            final(self).sig(g).owner == old(self).running(),
            final(self).scopes == old(self).scopes,
            final(self).queue == old(self).queue,
            final(self).run_stack == old(self).run_stack,
            final(self).cleanup_log == old(self).cleanup_log,
            final(self).flush_pending == old(self).flush_pending,
            final(self).flushes == old(self).flushes,
    {
        let g = self.signals.len();
        let owner: Option<usize> = if self.run_stack.len() == 0 {
            None
        } else {
            Some(self.run_stack[self.run_stack.len() - 1])
        };
        self.signals.push(SignalCell { value: init, dependents: Vec::new(), alive: true, owner });
        proof {
            assert forall|g2: usize| g2 < self.n_sigs() implies #[trigger] self.wf_sig(g2) by {
                if g2 < old(self).n_sigs() {
                    assert(old(self).wf_sig(g2));
                    assert(self.sig(g2) == old(self).sig(g2));
                }
                if old(self).run_stack@.len() > 0 {
                    assert(old(self).scope_alive(old(self).run_stack@[old(self).run_stack@.len() - 1]));
                }
            }
            assert forall|c2: usize| c2 < self.n_scopes() implies #[trigger] self.wf_scope(c2) by {
                assert(old(self).wf_scope(c2));
            }
            assert forall|g2: usize, c2: usize|
                g2 < self.n_sigs() && c2 < self.n_scopes() implies (#[trigger] self.depends(
                g2,
                c2,
            ) <==> #[trigger] self.subscribed(c2, g2)) by {
                assert(old(self).wf_scope(c2));
                if g2 < old(self).n_sigs() {
                    assert(old(self).depends(g2, c2) <==> old(self).subscribed(c2, g2));
                } else {
                    assert(!self.depends(g2, c2));
                    if self.subscribed(c2, g2) {
                        assert(old(self).scope(c2).subs@.contains(g2));
                        if old(self).scope(c2).alive {
                            assert(old(self).sig_alive(g2));
                        }
                        assert(false);
                    }
                }
            }
        }
        g
    }

    /// Read a signal. Inside an evaluation this records the dependency in
    /// both directions; outside one it changes nothing.
    pub fn read(&mut self, g: usize) -> (v: Value)
        requires
            old(self).wf(),
            old(self).sig_alive(g),
        ensures
            final(self).wf(),
            v@ == old(self).sig(g).value@,
            old(self).running() is None ==> *final(self) == *old(self),
            old(self).running() matches Some(c) ==> {
                &&& final(self).depends(g, c)
                &&& final(self).subscribed(c, g)
                &&& old(self).subscribed(c, g) ==> *final(self) == *old(self)
                &&& !old(self).subscribed(c, g) ==> {
                    &&& final(self).sig(g).dependents@ == old(self).sig(g).dependents@.push(c)
                    &&& final(self).sig(g).value == old(self).sig(g).value
                    &&& final(self).sig(g).alive == old(self).sig(g).alive
                    &&& final(self).sig(g).owner == old(self).sig(g).owner
                    &&& final(self).scope(c).subs@ == old(self).scope(c).subs@.push(g)
                    &&& final(self).scope(c).parent == old(self).scope(c).parent
                    &&& final(self).scope(c).dirty == old(self).scope(c).dirty
                    &&& final(self).scope(c).alive == old(self).scope(c).alive
                    &&& final(self).scope(c).cleanups == old(self).scope(c).cleanups
                    &&& final(self).scope(c).comp == old(self).scope(c).comp
                    &&& final(self).scope(c).key == old(self).scope(c).key
                    &&& final(self).scope(c).props == old(self).scope(c).props
                    &&& forall|g2: usize|
                        g2 < old(self).n_sigs() && g2 != g ==> final(self).sig(g2) == old(
                            self,
                        ).sig(g2)
                    &&& forall|c2: usize|
                        c2 < old(self).n_scopes() && c2 != c ==> final(self).scope(c2) == old(
                            self,
                        ).scope(c2)
                }
            },
            final(self).n_sigs() == old(self).n_sigs(),
            final(self).n_scopes() == old(self).n_scopes(),
            final(self).queue == old(self).queue,
            final(self).run_stack == old(self).run_stack,
            final(self).cleanup_log == old(self).cleanup_log,
            final(self).flush_pending == old(self).flush_pending,
            final(self).flushes == old(self).flushes,
    {
        let v = self.signals[g].value.dup();
        if self.run_stack.len() > 0 {
            let c = self.run_stack[self.run_stack.len() - 1];
            proof {
                assert(old(self).scope_alive(old(self).run_stack@[old(self).run_stack@.len() - 1]));
            }
            if !vec_has(&self.scopes[c].subs, g) {
                proof {
                    assert(!old(self).subscribed(c, g));
                    assert(old(self).wf_scope(c));
                    assert(!old(self).depends(g, c));
                }
                self.scopes[c].subs.push(g);
                self.signals[g].dependents.push(c);
                proof {
                    assert(self.sig(g).dependents@ == old(self).sig(g).dependents@.push(c));
                    assert(self.scope(c).subs@ == old(self).scope(c).subs@.push(g));
                    assert(self.sig(g).dependents@.last() == c);
                    assert(self.scope(c).subs@.last() == g);
                    assert(self.depends(g, c));
                    assert(self.subscribed(c, g));
                    assert forall|g2: usize, c2: usize|
                        g2 < old(self).n_sigs() && c2 < old(self).n_scopes() && !(g2 == g && c2
                            == c) implies (#[trigger] self.depends(g2, c2) == old(self).depends(
                        g2,
                        c2,
                    )) && (#[trigger] self.subscribed(c2, g2) == old(self).subscribed(c2, g2)) by {
                        if g2 == g {
                            assert(self.sig(g).dependents@.contains(c2) == old(self).sig(
                                g,
                            ).dependents@.contains(c2)) by {
                                if old(self).sig(g).dependents@.contains(c2) {
                                    let i = choose|i: int|
                                        0 <= i < old(self).sig(g).dependents@.len() && old(self).sig(
                                            g,
                                        ).dependents@[i] == c2;
                                    assert(self.sig(g).dependents@[i] == c2);
                                } else {
                                    if self.sig(g).dependents@.contains(c2) {
                                        let i = choose|i: int|
                                            0 <= i < self.sig(g).dependents@.len() && self.sig(
                                                g,
                                            ).dependents@[i] == c2;
                                        assert(i == old(self).sig(g).dependents@.len());
                                        assert(c2 == c);
                                        assert(false);
                                    }
                                }
                            }
                        }
                        if c2 == c {
                            assert(self.scope(c).subs@.contains(g2) == old(self).scope(
                                c,
                            ).subs@.contains(g2)) by {
                                if old(self).scope(c).subs@.contains(g2) {
                                    let i = choose|i: int|
                                        0 <= i < old(self).scope(c).subs@.len() && old(self).scope(c).subs@[i]
                                            == g2;
                                    assert(self.scope(c).subs@[i] == g2);
                                } else {
                                    if self.scope(c).subs@.contains(g2) {
                                        let i = choose|i: int|
                                            0 <= i < self.scope(c).subs@.len() && self.scope(
                                                c,
                                            ).subs@[i] == g2;
                                        assert(i == old(self).scope(c).subs@.len());
                                        assert(g2 == g);
                                        assert(false);
                                    }
                                }
                            }
                        }
                    }
                    assert forall|g2: usize| g2 < self.n_sigs() implies #[trigger] self.wf_sig(
                        g2,
                    ) by {
                        assert(old(self).wf_sig(g2));
                        if g2 != g {
                            assert(self.sig(g2) == old(self).sig(g2));
                        } else {
                            assert forall|c3: usize|
                                self.sig(g).dependents@.contains(c3) implies self.scope_alive(
                                c3,
                            ) by {
                                let i = choose|i: int|
                                    0 <= i < self.sig(g).dependents@.len() && self.sig(
                                        g,
                                    ).dependents@[i] == c3;
                                if i < old(self).sig(g).dependents@.len() {
                                    assert(old(self).sig(g).dependents@.contains(c3));
                                    assert(old(self).scope_alive(c3));
                                } else {
                                    assert(c3 == c);
                                }
                            }
                            assert(distinct(self.sig(g).dependents@)) by {
                                assert forall|i: int, j: int|
                                    0 <= i < j < self.sig(g).dependents@.len() implies self.sig(
                                    g,
                                ).dependents@[i] != self.sig(g).dependents@[j] by {
                                    if j == old(self).sig(g).dependents@.len() {
                                        assert(old(self).sig(g).dependents@.contains(old(self).sig(
                                            g,
                                        ).dependents@[i]));
                                    }
                                }
                            }
                        }
                    }
                    assert forall|c2: usize| c2 < self.n_scopes() implies #[trigger] self.wf_scope(
                        c2,
                    ) by {
                        assert(old(self).wf_scope(c2));
                        if c2 != c {
                            assert(self.scope(c2) == old(self).scope(c2));
                        } else {
                            assert forall|g3: usize|
                                self.scope(c).subs@.contains(g3) implies self.sig_alive(g3) by {
                                let i = choose|i: int|
                                    0 <= i < self.scope(c).subs@.len() && self.scope(c).subs@[i]
                                        == g3;
                                if i < old(self).scope(c).subs@.len() {
                                    assert(old(self).scope(c).subs@.contains(g3));
                                    assert(old(self).sig_alive(g3));
                                } else {
                                    assert(g3 == g);
                                }
                            }
                            assert(distinct(self.scope(c).subs@)) by {
                                assert forall|i: int, j: int|
                                    0 <= i < j < self.scope(c).subs@.len() implies self.scope(
                                    c,
                                ).subs@[i] != self.scope(c).subs@[j] by {
                                    if j == old(self).scope(c).subs@.len() {
                                        assert(old(self).scope(c).subs@.contains(old(self).scope(c).subs@[i]));
                                    }
                                }
                            }
                        }
                    }
                }
                return v;
            } else {
                proof {
                    assert(old(self).subscribed(c, g));
                    assert(old(self).depends(g, c));
                }
                return v;
            }
        }
        v
    }

    /// Register a cleanup token on a scope; it runs when the scope is
    /// disposed, in reverse registration order.
    pub fn register_cleanup(&mut self, c: usize, token: u64)
        requires
            old(self).wf(),
            old(self).scope_alive(c),
        ensures
            final(self).wf(),
            final(self).scope(c).cleanups@ == old(self).scope(c).cleanups@.push(token),
            final(self).scope(c).parent == old(self).scope(c).parent,
            final(self).scope(c).subs == old(self).scope(c).subs,
            final(self).scope(c).dirty == old(self).scope(c).dirty,
            final(self).scope(c).alive == old(self).scope(c).alive,
            final(self).scope(c).comp == old(self).scope(c).comp,
            final(self).scope(c).key == old(self).scope(c).key,
            final(self).scope(c).props == old(self).scope(c).props,
            forall|c2: usize|
                c2 < old(self).n_scopes() && c2 != c ==> final(self).scope(c2) == old(self).scope(
                    c2,
                ),
            final(self).n_scopes() == old(self).n_scopes(),
            final(self).signals == old(self).signals,
            final(self).queue == old(self).queue,
            final(self).run_stack == old(self).run_stack,
            final(self).cleanup_log == old(self).cleanup_log,
            final(self).flush_pending == old(self).flush_pending,
            final(self).flushes == old(self).flushes,
    {
        self.scopes[c].cleanups.push(token);
        proof {
            assert forall|c2: usize|
                c2 < self.n_scopes() && (#[trigger] self.scope(c2)).dirty implies self.scope(
                c2,
            ).alive by {
                assert(old(self).wf_scope(c2));
            }
            lemma_wf_core_frame(*old(self), *self);
        }
    }

    /// Start evaluating a scope: clear its prior dependency links — any
    /// signal read during the evaluation re-subscribes — and push it as the
    /// current scope.
    pub fn begin_run(&mut self, c: usize)
        requires
            old(self).wf(),
            old(self).scope_alive(c),
            !old(self).run_stack@.contains(c),
        ensures
            final(self).wf(),
            final(self).run_stack@ == old(self).run_stack@.push(c),
            final(self).scope(c).subs@.len() == 0,
            final(self).scope(c).parent == old(self).scope(c).parent,
            final(self).scope(c).dirty == old(self).scope(c).dirty,
            final(self).scope(c).alive,
            final(self).scope(c).cleanups == old(self).scope(c).cleanups,
            final(self).scope(c).comp == old(self).scope(c).comp,
            final(self).scope(c).key == old(self).scope(c).key,
            final(self).scope(c).props == old(self).scope(c).props,
            forall|c2: usize|
                c2 < old(self).n_scopes() && c2 != c ==> final(self).scope(c2) == old(self).scope(
                    c2,
                ),
            final(self).n_scopes() == old(self).n_scopes(),
            final(self).n_sigs() == old(self).n_sigs(),
            forall|g: usize|
                g < old(self).n_sigs() ==> {
                    &&& (#[trigger] final(self).sig(g)).value == old(self).sig(g).value
                    &&& final(self).sig(g).alive == old(self).sig(g).alive
                    &&& final(self).sig(g).owner == old(self).sig(g).owner
                },
            forall|g: usize| g < old(self).n_sigs() ==> !final(self).depends(g, c),
            forall|g: usize, c2: usize|
                g < old(self).n_sigs() && c2 != c ==> (#[trigger] final(self).sig(
                    g,
                ).dependents@.contains(c2)) == old(self).sig(g).dependents@.contains(c2),
            final(self).queue == old(self).queue,
            final(self).cleanup_log == old(self).cleanup_log,
            final(self).flush_pending == old(self).flush_pending,
            final(self).flushes == old(self).flushes,
    {
        self.run_stack.push(c);
        let subs0 = vec_copy(&self.scopes[c].subs);
        self.scopes[c].subs = Vec::new();
        proof {
            assert(distinct(self.run_stack@)) by {
                assert forall|a: int, b: int|
                    0 <= a < b < self.run_stack@.len() implies self.run_stack@[a]
                    != self.run_stack@[b] by {
                    if b == old(self).run_stack@.len() {
                        assert(old(self).run_stack@.contains(old(self).run_stack@[a]));
                    }
                }
            }
            assert forall|i2: int| 0 <= i2 < self.run_stack@.len() implies (old(self).scope_alive(
                #[trigger] self.run_stack@[i2],
            ) || self.run_stack@[i2] == c) by {
                if i2 < old(self).run_stack@.len() {
                    assert(self.run_stack@[i2] == old(self).run_stack@[i2]);
                    assert(old(self).scope_alive(old(self).run_stack@[i2]));
                }
            }
            assert(old(self).wf_scope(c));
            assert(distinct(subs0@));
            assert forall|g: usize| subs0@.contains(g) implies old(self).sig_alive(g) by {}
            assert forall|g: usize|
                g < old(self).n_sigs() implies {
                &&& (#[trigger] self.sig(g)).value == old(self).sig(g).value
                &&& self.sig(g).alive == old(self).sig(g).alive
                &&& self.sig(g).owner == old(self).sig(g).owner
                &&& distinct(self.sig(g).dependents@)
            } by {
                assert(old(self).wf_sig(g));
                assert(self.sig(g) == old(self).sig(g));
            }
        }
        let sl = subs0.len();
        let mut k: usize = 0;
        while k < sl
            invariant
                old(self).wf(),
                old(self).scope_alive(c),
                k <= sl,
                sl == subs0@.len(),
                subs0@ == old(self).scope(c).subs@,
                distinct(subs0@),
                forall|g: usize| #[trigger] subs0@.contains(g) ==> old(self).sig_alive(g),
                self.n_sigs() == old(self).n_sigs(),
                self.n_scopes() == old(self).n_scopes(),
                self.scope(c).subs@.len() == 0,
                self.scope(c).parent == old(self).scope(c).parent,
                self.scope(c).dirty == old(self).scope(c).dirty,
                self.scope(c).alive,
                self.scope(c).cleanups == old(self).scope(c).cleanups,
                self.scope(c).comp == old(self).scope(c).comp,
                self.scope(c).key == old(self).scope(c).key,
                self.scope(c).props == old(self).scope(c).props,
                forall|c2: usize|
                    c2 < old(self).n_scopes() && c2 != c ==> (#[trigger] self.scope(c2)) == old(
                        self,
                    ).scope(c2),
                self.run_stack@ == old(self).run_stack@.push(c),
                distinct(self.run_stack@),
                forall|i2: int|
                    0 <= i2 < self.run_stack@.len() ==> old(self).scope_alive(
                        #[trigger] self.run_stack@[i2],
                    ) || self.run_stack@[i2] == c,
                self.queue == old(self).queue,
                self.cleanup_log == old(self).cleanup_log,
                self.flush_pending == old(self).flush_pending,
                self.flushes == old(self).flushes,
                forall|g: usize|
                    g < old(self).n_sigs() ==> {
                        &&& (#[trigger] self.sig(g)).value == old(self).sig(g).value
                        &&& self.sig(g).alive == old(self).sig(g).alive
                        &&& self.sig(g).owner == old(self).sig(g).owner
                        &&& distinct(self.sig(g).dependents@)
                    },
                forall|g: usize|
                    subs0@.take(k as int).contains(g) ==> !(#[trigger] self.sig(
                        g,
                    )).dependents@.contains(c),
                forall|g: usize|
                    g < old(self).n_sigs() && !subs0@.take(k as int).contains(g) ==> (
                    #[trigger] self.sig(g)).dependents == old(self).sig(g).dependents,
                forall|g: usize, c2: usize|
                    g < old(self).n_sigs() && c2 != c ==> (#[trigger] self.sig(
                        g,
                    ).dependents@.contains(c2)) == old(self).sig(g).dependents@.contains(c2),
            decreases sl - k,
        {
            let ghost pre = *self;
            let g = subs0[k];
            proof {
                assert(subs0@.contains(subs0@[k as int]));
                assert(old(self).sig_alive(g));
                assert(old(self).wf_sig(g));
                assert(subs0@.take(k as int + 1) == subs0@.take(k as int).push(g));
                assert(!subs0@.take(k as int).contains(g)) by {
                    if subs0@.take(k as int).contains(g) {
                        let j = choose|j: int| 0 <= j < k && subs0@.take(k as int)[j] == g;
                        assert(subs0@[j] == g);
                        assert(false);
                    }
                }
                assert(distinct(self.sig(g).dependents@));
            }
            let dl = self.signals[g].dependents.len();
            let mut deps2: Vec<usize> = Vec::new();
            let mut q: usize = 0;
            while q < dl
                invariant
                    q <= dl,
                    *self == pre,
                    g < pre.n_sigs(),
                    dl == pre.sig(g).dependents@.len(),
                    distinct(pre.sig(g).dependents@),
                    distinct(deps2@),
                    forall|y: usize| #[trigger]
                        deps2@.contains(y) <==> (pre.sig(g).dependents@.take(q as int).contains(y)
                            && y != c),
                decreases dl - q,
            {
                let y = self.signals[g].dependents[q];
                proof {
                    assert(pre.sig(g).dependents@.take(q as int + 1) == pre.sig(
                        g,
                    ).dependents@.take(q as int).push(y));
                    assert(!pre.sig(g).dependents@.take(q as int).contains(y)) by {
                        if pre.sig(g).dependents@.take(q as int).contains(y) {
                            let j = choose|j: int|
                                0 <= j < q && pre.sig(g).dependents@.take(q as int)[j] == y;
                            assert(pre.sig(g).dependents@[j] == y);
                            assert(false);
                        }
                    }
                }
                if y != c {
                    let ghost d0 = deps2@;
                    deps2.push(y);
                    proof {
                        assert(deps2@ == d0.push(y));
                        assert(distinct(deps2@)) by {
                            assert forall|a: int, b: int|
                                0 <= a < b < deps2@.len() implies deps2@[a] != deps2@[b] by {
                                if b == d0.len() {
                                    assert(d0.contains(d0[a]));
                                }
                            }
                        }
                    }
                }
                q += 1;
            }
            proof {
                assert(pre.sig(g).dependents@.take(dl as int) == pre.sig(g).dependents@);
            }
            self.signals[g].dependents = deps2;
            proof {
                assert forall|g2: usize|
                    g2 < old(self).n_sigs() implies {
                    &&& (#[trigger] self.sig(g2)).value == old(self).sig(g2).value
                    &&& self.sig(g2).alive == old(self).sig(g2).alive
                    &&& self.sig(g2).owner == old(self).sig(g2).owner
                    &&& distinct(self.sig(g2).dependents@)
                } by {
                    if g2 != g {
                        assert(self.sig(g2) == pre.sig(g2));
                        assert(pre.sig(g2).value == old(self).sig(g2).value);
                        assert(pre.sig(g2).alive == old(self).sig(g2).alive);
                        assert(pre.sig(g2).owner == old(self).sig(g2).owner);
                        assert(distinct(pre.sig(g2).dependents@));
                    } else {
                        assert(pre.sig(g).value == old(self).sig(g).value);
                        assert(pre.sig(g).alive == old(self).sig(g).alive);
                        assert(pre.sig(g).owner == old(self).sig(g).owner);
                    }
                }
                assert forall|g2: usize|
                    subs0@.take(k as int + 1).contains(g2) implies !(#[trigger] self.sig(
                    g2,
                )).dependents@.contains(c) by {
                    if g2 != g {
                        assert(subs0@.take(k as int).contains(g2));
                        assert(subs0@.contains(g2));
                        assert(old(self).sig_alive(g2));
                        assert(self.sig(g2) == pre.sig(g2));
                        assert(!pre.sig(g2).dependents@.contains(c));
                    }
                }
                assert forall|g2: usize|
                    g2 < old(self).n_sigs() && !subs0@.take(k as int + 1).contains(g2) implies (
                #[trigger] self.sig(g2)).dependents == old(self).sig(g2).dependents by {
                    assert(g2 != g);
                    assert(!subs0@.take(k as int).contains(g2));
                    assert(self.sig(g2) == pre.sig(g2));
                    assert(pre.sig(g2).dependents == old(self).sig(g2).dependents);
                }
                assert forall|g2: usize, c2: usize|
                    g2 < old(self).n_sigs() && c2 != c implies (#[trigger] self.sig(
                        g2,
                    ).dependents@.contains(c2)) == old(self).sig(g2).dependents@.contains(c2) by {
                    if g2 == g {
                        assert(self.sig(g).dependents@.contains(c2) == pre.sig(
                            g,
                        ).dependents@.contains(c2));
                        assert(pre.sig(g).dependents@.contains(c2) == old(self).sig(
                            g,
                        ).dependents@.contains(c2));
                    } else {
                        assert(self.sig(g2) == pre.sig(g2));
                        assert(pre.sig(g2).dependents@.contains(c2) == old(self).sig(
                            g2,
                        ).dependents@.contains(c2));
                    }
                }
                assert forall|c2: usize|
                    c2 < old(self).n_scopes() && c2 != c implies (#[trigger] self.scope(c2))
                        == old(self).scope(c2) by {
                    assert(self.scope(c2) == pre.scope(c2));
                    assert(pre.scope(c2) == old(self).scope(c2));
                }
                assert(self.scope(c) == pre.scope(c));
                assert(pre.scope(c).subs@.len() == 0);
                assert(pre.scope(c).parent == old(self).scope(c).parent);
                assert(pre.scope(c).dirty == old(self).scope(c).dirty);
                assert(pre.scope(c).alive);
                assert(pre.scope(c).cleanups == old(self).scope(c).cleanups);
                assert(pre.scope(c).comp == old(self).scope(c).comp);
                assert(pre.scope(c).key == old(self).scope(c).key);
                assert(pre.scope(c).props == old(self).scope(c).props);
                assert(self.run_stack == pre.run_stack);
                assert(pre.run_stack@ == old(self).run_stack@.push(c));
                assert(self.queue == pre.queue);
                assert(pre.queue == old(self).queue);
                assert(self.cleanup_log == pre.cleanup_log);
                assert(self.flush_pending == pre.flush_pending);
                assert(self.flushes == pre.flushes);
            }
            k += 1;
        }
        proof {
            let pre = *old(self);
            assert(subs0@.take(sl as int) == subs0@);
            assert forall|g: usize| g < self.n_sigs() implies !(#[trigger] self.depends(
                g,
                c,
            )) by {
                if subs0@.contains(g) {
                    assert(!self.sig(g).dependents@.contains(c));
                } else {
                    assert(!pre.subscribed(c, g));
                    assert(pre.depends(g, c) <==> pre.subscribed(c, g));
                    assert(self.sig(g).dependents == pre.sig(g).dependents);
                }
            }
            assert forall|g: usize| g < self.n_sigs() implies #[trigger] self.wf_sig(g) by {
                assert(pre.wf_sig(g));
                assert forall|c3: usize| self.sig(g).dependents@.contains(c3) implies self.scope_alive(
                    c3,
                ) by {
                    assert(c3 != c ==> self.sig(g).dependents@.contains(c3) == pre.sig(
                        g,
                    ).dependents@.contains(c3));
                    if c3 == c {
                        assert(!self.depends(g, c));
                        assert(false);
                    }
                    assert(pre.sig(g).dependents@.contains(c3));
                    if pre.sig(g).alive {
                        assert(pre.scope_alive(c3));
                        if c3 != c {
                            assert(self.scope(c3) == pre.scope(c3));
                        }
                    } else {
                        assert(pre.sig(g).dependents@.len() == 0);
                        assert(false);
                    }
                }
                if self.sig(g).alive {
                    match self.sig(g).owner {
                        Some(o) => {
                            assert(pre.scope_alive(o));
                            if o != c {
                                assert(self.scope(o) == pre.scope(o));
                            }
                        },
                        None => {},
                    }
                }
                if !self.sig(g).alive {
                    assert(!pre.sig(g).alive);
                    assert(pre.sig(g).dependents@.len() == 0);
                    if self.sig(g).dependents@.len() > 0 {
                        let c0 = self.sig(g).dependents@[0];
                        assert(self.sig(g).dependents@.contains(c0));
                        if c0 == c {
                            assert(!self.depends(g, c));
                            assert(false);
                        } else {
                            assert(pre.sig(g).dependents@.contains(c0));
                            assert(false);
                        }
                    }
                }
            }
            assert forall|c2: usize| c2 < self.n_scopes() implies #[trigger] self.wf_scope(
                c2,
            ) by {
                assert(pre.wf_scope(c2));
                if c2 != c {
                    assert(self.scope(c2) == pre.scope(c2));
                    assert forall|g: usize| #[trigger]
                        self.scope(c2).subs@.contains(g) implies (self.scope(c2).alive
                        ==> self.sig_alive(g)) by {
                        if self.scope(c2).alive {
                            assert(pre.subscribed(c2, g));
                            assert(pre.sig_alive(g));
                        }
                    }
                    match self.scope(c2).parent {
                        Some(p) => {
                            if self.scope(c2).alive {
                                assert(pre.scope_alive(p));
                                if p != c {
                                    assert(self.scope(p) == pre.scope(p));
                                }
                            }
                        },
                        None => {},
                    }
                } else {
                    match self.scope(c).parent {
                        Some(p) => {
                            assert(pre.scope_alive(p));
                            if p != c {
                                assert(self.scope(p) == pre.scope(p));
                            }
                        },
                        None => {},
                    }
                }
            }
            assert forall|g: usize, c2: usize|
                g < self.n_sigs() && c2 < self.n_scopes() implies (#[trigger] self.depends(g, c2)
                <==> #[trigger] self.subscribed(c2, g)) by {
                assert(pre.depends(g, c2) <==> pre.subscribed(c2, g));
                if c2 == c {
                    assert(!self.depends(g, c));
                    assert(self.scope(c).subs@.len() == 0);
                } else {
                    assert(self.scope(c2) == pre.scope(c2));
                    assert(self.sig(g).dependents@.contains(c2) == pre.sig(
                        g,
                    ).dependents@.contains(c2));
                }
            }
            assert forall|i2: int| 0 <= i2 < self.queue@.len() implies self.scope_alive(
                #[trigger] self.queue@[i2],
            ) && self.scope(self.queue@[i2]).dirty by {
                assert(pre.queue@.contains(pre.queue@[i2]));
                assert(pre.wf_queue());
                assert(pre.scope_alive(pre.queue@[i2]) && pre.scope(pre.queue@[i2]).dirty);
                if self.queue@[i2] != c {
                    assert(self.scope(self.queue@[i2]) == pre.scope(self.queue@[i2]));
                }
            }
            assert forall|i2: int| 0 <= i2 < self.run_stack@.len() implies self.scope_alive(
                #[trigger] self.run_stack@[i2],
            ) by {
                if self.run_stack@[i2] != c {
                    assert(pre.scope_alive(self.run_stack@[i2]));
                    assert(self.scope(self.run_stack@[i2]) == pre.scope(self.run_stack@[i2]));
                }
            }
        }
    }

    /// Finish the innermost evaluation: pop the run stack. The scope stays
    /// dirty only if a write during its own evaluation re-enqueued it.
    pub fn end_run(&mut self) -> (c: usize)
        requires
            old(self).wf(),
            old(self).run_stack@.len() > 0,
        ensures
            final(self).wf(),
            c == old(self).run_stack@.last(),
            final(self).run_stack@ == old(self).run_stack@.drop_last(),
            final(self).scope(c).dirty == old(self).queued(c),
            final(self).scope(c).parent == old(self).scope(c).parent,
            final(self).scope(c).subs == old(self).scope(c).subs,
            final(self).scope(c).alive == old(self).scope(c).alive,
            final(self).scope(c).cleanups == old(self).scope(c).cleanups,
            final(self).scope(c).comp == old(self).scope(c).comp,
            final(self).scope(c).key == old(self).scope(c).key,
            final(self).scope(c).props == old(self).scope(c).props,
            forall|c2: usize|
                c2 < old(self).n_scopes() && c2 != c ==> final(self).scope(c2) == old(self).scope(
                    c2,
                ),
            final(self).n_scopes() == old(self).n_scopes(),
            final(self).signals == old(self).signals,
            final(self).queue == old(self).queue,
            final(self).cleanup_log == old(self).cleanup_log,
            final(self).flush_pending == old(self).flush_pending,
            final(self).flushes == old(self).flushes,
    {
        proof {
            assert(old(self).scope_alive(old(self).run_stack@[old(self).run_stack@.len() - 1]));
        }
        let c = self.run_stack[self.run_stack.len() - 1];
        self.run_stack.pop();
        let qd = vec_has(&self.queue, c);
        self.scopes[c].dirty = qd;
        proof {
            if qd {
                let i = choose|i: int| 0 <= i < old(self).queue@.len() && old(self).queue@[i] == c;
                assert(old(self).scope(old(self).queue@[i]).dirty);
            }
            assert forall|c2: usize|
                c2 < self.n_scopes() && (#[trigger] self.scope(c2)).dirty implies self.scope(
                c2,
            ).alive by {
                assert(old(self).wf_scope(c2));
            }
            lemma_wf_core_frame(*old(self), *self);
            assert(self.run_stack@ == old(self).run_stack@.drop_last());
            assert forall|i: int| 0 <= i < self.run_stack@.len() implies self.scope_alive(
                #[trigger] self.run_stack@[i],
            ) by {
                assert(old(self).scope_alive(old(self).run_stack@[i]));
                assert(self.scope(old(self).run_stack@[i]).alive == old(self).scope(
                    old(self).run_stack@[i],
                ).alive);
            }
            assert forall|i: int| 0 <= i < self.queue@.len() implies self.scope_alive(
                #[trigger] self.queue@[i],
            ) && self.scope(self.queue@[i]).dirty by {
                assert(old(self).scope_alive(old(self).queue@[i]));
                assert(old(self).scope(old(self).queue@[i]).dirty);
                assert(old(self).queue@.contains(old(self).queue@[i]));
            }
        }
        c
    }

    /// Write a signal. If the value differs from the current one (by value
    /// equality) it is stored, every dependent scope is marked dirty, the
    /// newly dirty ones are enqueued in dependent order, and a flush becomes
    /// pending; a write of an equal value changes nothing at all.
    ///
    /// Returns `(changed, self_write)`; `self_write` reports a write to a
    /// signal the currently evaluating scope has read during this same
    /// evaluation (the write still only takes effect at the next flush).
    pub fn write(&mut self, g: usize, v: Value) -> (r: (bool, bool))
        requires
            old(self).wf(),
            old(self).sig_alive(g),
        ensures
            final(self).wf(),
            r.0 == (v@ != old(self).sig(g).value@),
            r.1 == (old(self).running() matches Some(c) && old(self).subscribed(c, g)),
            !r.0 ==> *final(self) == *old(self),
            r.0 ==> {
                &&& final(self).sig(g).value == v
                &&& final(self).sig(g).dependents == old(self).sig(g).dependents
                &&& final(self).sig(g).alive
                &&& final(self).sig(g).owner == old(self).sig(g).owner
                &&& forall|g2: usize|
                    g2 < old(self).n_sigs() && g2 != g ==> final(self).sig(g2) == old(self).sig(g2)
                &&& forall|c2: usize|
                    c2 < old(self).n_scopes() ==> {
                        &&& (#[trigger] final(self).scope(c2)).parent == old(self).scope(c2).parent
                        &&& final(self).scope(c2).subs == old(self).scope(c2).subs
                        &&& final(self).scope(c2).alive == old(self).scope(c2).alive
                        &&& final(self).scope(c2).cleanups == old(self).scope(c2).cleanups
                        &&& final(self).scope(c2).comp == old(self).scope(c2).comp
                        &&& final(self).scope(c2).key == old(self).scope(c2).key
                        &&& final(self).scope(c2).props == old(self).scope(c2).props
                        &&& final(self).scope(c2).dirty == (old(self).scope(c2).dirty || old(
                            self,
                        ).depends(g, c2))
                    }
                &&& forall|c2: usize|
                    #[trigger] final(self).queue@.contains(c2) <==> (old(self).queue@.contains(c2)
                        || (old(self).depends(g, c2) && !old(self).scope(c2).dirty))
                &&& final(self).queue@.take(old(self).queue@.len() as int) == old(self).queue@
                &&& final(self).flush_pending
                &&& final(self).run_stack == old(self).run_stack
                &&& final(self).cleanup_log == old(self).cleanup_log
                &&& final(self).flushes == old(self).flushes
                &&& final(self).n_sigs() == old(self).n_sigs()
                &&& final(self).n_scopes() == old(self).n_scopes()
            },
    {
        let sw: bool = if self.run_stack.len() > 0 {
            let cur = self.run_stack[self.run_stack.len() - 1];
            proof {
                assert(old(self).scope_alive(old(self).run_stack@[old(self).run_stack@.len() - 1]));
            }
            vec_has(&self.scopes[cur].subs, g)
        } else {
            false
        };
        if self.signals[g].value.eq_val(&v) {
            return (false, sw);
        }
        self.signals[g].value = v;
        self.flush_pending = true;
        let nd = self.signals[g].dependents.len();
        let mut i: usize = 0;
        while i < nd
            invariant
                old(self).wf(),
                old(self).sig_alive(g),
                i <= nd,
                self.n_sigs() == old(self).n_sigs(),
                self.n_scopes() == old(self).n_scopes(),
                nd == self.sig(g).dependents@.len(),
                self.sig(g).dependents == old(self).sig(g).dependents,
                self.sig(g).value == v,
                self.sig(g).alive,
                self.sig(g).owner == old(self).sig(g).owner,
                forall|g2: usize|
                    g2 < old(self).n_sigs() && g2 != g ==> self.sig(g2) == old(self).sig(g2),
                forall|c2: usize|
                    c2 < old(self).n_scopes() ==> {
                        &&& (#[trigger] self.scope(c2)).parent == old(self).scope(c2).parent
                        &&& self.scope(c2).subs == old(self).scope(c2).subs
                        &&& self.scope(c2).alive == old(self).scope(c2).alive
                        &&& self.scope(c2).cleanups == old(self).scope(c2).cleanups
                        &&& self.scope(c2).comp == old(self).scope(c2).comp
                        &&& self.scope(c2).key == old(self).scope(c2).key
                        &&& self.scope(c2).props == old(self).scope(c2).props
                        &&& self.scope(c2).dirty == (old(self).scope(c2).dirty || old(
                            self,
                        ).sig(g).dependents@.take(i as int).contains(c2))
                    },
                forall|c2: usize|
                    #[trigger] self.queue@.contains(c2) <==> (old(self).queue@.contains(c2) || (
                    old(self).sig(g).dependents@.take(i as int).contains(c2) && !old(self).scope(
                        c2,
                    ).dirty)),
                self.queue@.take(old(self).queue@.len() as int) == old(self).queue@,
                old(self).queue@.len() <= self.queue@.len(),
                distinct(self.queue@),
                forall|j: int|
                    0 <= j < self.queue@.len() ==> self.scope_alive(#[trigger] self.queue@[j])
                        && self.scope(self.queue@[j]).dirty,
                self.run_stack == old(self).run_stack,
                self.cleanup_log == old(self).cleanup_log,
                self.flushes == old(self).flushes,
                self.flush_pending,
            decreases nd - i,
        {
            let ghost pre = *self;
            let c = self.signals[g].dependents[i];
            proof {
                assert(old(self).wf_sig(g));
                assert(old(self).sig(g).dependents@.contains(
                    old(self).sig(g).dependents@[i as int],
                ));
                assert(old(self).scope_alive(c));
                assert(old(self).sig(g).dependents@.take(i as int + 1) == old(self).sig(
                    g,
                ).dependents@.take(i as int).push(c));
                assert(!old(self).sig(g).dependents@.take(i as int).contains(c)) by {
                    if old(self).sig(g).dependents@.take(i as int).contains(c) {
                        let j = choose|j: int|
                            0 <= j < i && old(self).sig(g).dependents@.take(i as int)[j] == c;
                        assert(old(self).sig(g).dependents@[j] == c);
                        assert(false);
                    }
                }
            }
            if !self.scopes[c].dirty {
                let ghost q0 = self.queue@;
                self.queue.push(c);
                self.scopes[c].dirty = true;
                proof {
                    assert(self.queue@ == q0.push(c));
                    assert(self.queue@.take(old(self).queue@.len() as int) =~= old(self).queue@);
                    assert(!q0.contains(c));
                    assert(distinct(self.queue@)) by {
                        assert forall|a: int, b: int|
                            0 <= a < b < self.queue@.len() implies self.queue@[a]
                            != self.queue@[b] by {
                            if b == q0.len() {
                                assert(q0.contains(q0[a]));
                            }
                        }
                    }
                    assert forall|j: int| 0 <= j < self.queue@.len() implies self.scope_alive(
                        #[trigger] self.queue@[j],
                    ) && self.scope(self.queue@[j]).dirty by {
                        if j < q0.len() {
                            assert(self.queue@[j] == q0[j]);
                            assert(q0.contains(q0[j]));
                            assert(pre.scope_alive(q0[j]) && pre.scope(q0[j]).dirty);
                            assert(q0[j] != c);
                            assert(self.scope(q0[j]) == pre.scope(q0[j]));
                        } else {
                            assert(self.queue@[j] == c);
                            assert(pre.scope(c).alive == old(self).scope(c).alive);
                        }
                    }
                    assert forall|c2: usize|
                        c2 < old(self).n_scopes() implies {
                        &&& (#[trigger] self.scope(c2)).parent == old(self).scope(c2).parent
                        &&& self.scope(c2).subs == old(self).scope(c2).subs
                        &&& self.scope(c2).alive == old(self).scope(c2).alive
                        &&& self.scope(c2).cleanups == old(self).scope(c2).cleanups
                        &&& self.scope(c2).comp == old(self).scope(c2).comp
                        &&& self.scope(c2).key == old(self).scope(c2).key
                        &&& self.scope(c2).props == old(self).scope(c2).props
                        &&& self.scope(c2).dirty == (old(self).scope(c2).dirty || old(
                            self,
                        ).sig(g).dependents@.take(i as int + 1).contains(c2))
                    } by {
                        if c2 == c {
                            assert(old(self).sig(g).dependents@.take(i as int + 1).contains(c));
                            assert(pre.scope(c).parent == old(self).scope(c).parent);
                            assert(pre.scope(c).subs == old(self).scope(c).subs);
                            assert(pre.scope(c).alive == old(self).scope(c).alive);
                            assert(pre.scope(c).cleanups == old(self).scope(c).cleanups);
                            assert(pre.scope(c).comp == old(self).scope(c).comp);
                            assert(pre.scope(c).key == old(self).scope(c).key);
                            assert(pre.scope(c).props == old(self).scope(c).props);
                            assert(self.scope(c) == ScopeRec { dirty: true, ..pre.scope(c) });
                        } else {
                            assert(self.scope(c2) == pre.scope(c2));
                            assert(pre.scope(c2).dirty == (old(self).scope(c2).dirty || old(
                                self,
                            ).sig(g).dependents@.take(i as int).contains(c2)));
                        }
                    }
                    assert forall|c2: usize| #[trigger]
                        self.queue@.contains(c2) <==> (old(self).queue@.contains(c2) || (old(
                            self,
                        ).sig(g).dependents@.take(i as int + 1).contains(c2) && !old(self).scope(
                            c2,
                        ).dirty)) by {
                        assert(self.queue@.contains(c2) <==> (q0.contains(c2) || c2 == c));
                        assert(q0.contains(c2) <==> (old(self).queue@.contains(c2) || (old(
                            self,
                        ).sig(g).dependents@.take(i as int).contains(c2) && !old(self).scope(
                            c2,
                        ).dirty)));
                        if c2 == c {
                            assert(pre.scope(c).dirty == (old(self).scope(c).dirty || old(
                                self,
                            ).sig(g).dependents@.take(i as int).contains(c)));
                        }
                    }
                }
            } else {
                proof {
                    assert forall|c2: usize|
                        c2 < old(self).n_scopes() implies (#[trigger] self.scope(c2)).dirty == (
                        old(self).scope(c2).dirty || old(self).sig(g).dependents@.take(
                            i as int + 1,
                        ).contains(c2)) by {
                        assert(pre.scope(c2).dirty == (old(self).scope(c2).dirty || old(
                            self,
                        ).sig(g).dependents@.take(i as int).contains(c2)));
                        assert(self.scope(c2) == pre.scope(c2));
                    }
                    assert forall|c2: usize| #[trigger]
                        self.queue@.contains(c2) <==> (old(self).queue@.contains(c2) || (old(
                            self,
                        ).sig(g).dependents@.take(i as int + 1).contains(c2) && !old(self).scope(
                            c2,
                        ).dirty)) by {
                        assert(pre.queue@.contains(c2) <==> (old(self).queue@.contains(c2) || (old(
                            self,
                        ).sig(g).dependents@.take(i as int).contains(c2) && !old(self).scope(
                            c2,
                        ).dirty)));
                        if c2 == c {
                            assert(pre.scope(c).dirty == (old(self).scope(c).dirty || old(
                                self,
                            ).sig(g).dependents@.take(i as int).contains(c)));
                        }
                    }
                }
            }
            i += 1;
        }
        proof {
            assert(old(self).sig(g).dependents@.take(nd as int) == old(self).sig(g).dependents@);
            assert forall|c2: usize|
                c2 < self.n_scopes() && (#[trigger] self.scope(c2)).dirty implies self.scope(
                c2,
            ).alive by {
                assert(old(self).wf_scope(c2));
                if old(self).depends(g, c2) {
                    assert(old(self).wf_sig(g));
                    assert(old(self).scope_alive(c2));
                }
            }
            lemma_wf_core_frame(*old(self), *self);
        }
        (true, sw)
    }

    /// Some proper ancestor of `c` is alive and awaiting re-evaluation.
    pub open spec fn has_dirty_anc(&self, c: usize) -> bool
        decreases c,
    {
        match self.scope(c).parent {
            Some(p) => if p < c {
                (self.scope_alive(p) && self.scope(p).dirty) || self.has_dirty_anc(p)
            } else {
                false
            },
            None => false,
        }
    }

    /// Walk the parent chain looking for a dirty, alive ancestor.
    pub fn dirty_ancestor(&self, c: usize) -> (r: bool)
        requires
            self.wf(),
            c < self.n_scopes(),
        ensures
            r == self.has_dirty_anc(c),
    {
        let mut cur: usize = c;
        loop
            invariant
                self.wf(),
                cur < self.n_scopes(),
                self.has_dirty_anc(c) == self.has_dirty_anc(cur),
            decreases cur,
        {
            proof {
                assert(self.wf_scope(cur));
            }
            match self.scopes[cur].parent {
                None => {
                    return false;
                },
                Some(p) => {
                    if self.scopes[p].alive && self.scopes[p].dirty {
                        return true;
                    }
                    cur = p;
                },
            }
        }
    }

    /// Take the work of one flush: the dirty scopes, in mark order, except
    /// those with a dirty ancestor, which the ancestor's re-evaluation will
    /// recreate or reuse; their dirty flag is cleared. Each scope appears at
    /// most once in the plan.
    pub fn take_flush_plan(&mut self) -> (plan: Vec<usize>)
        requires
            old(self).wf(),
            old(self).flushes < u64::MAX,
        ensures
            final(self).wf(),
            distinct(plan@),
            forall|k: int|
                0 <= k < plan@.len() ==> old(self).queued(#[trigger] plan@[k]) && old(
                    self,
                ).scope_alive(plan@[k]) && old(self).scope(plan@[k]).dirty && !old(
                    self,
                ).has_dirty_anc(plan@[k]),
            forall|c: usize|
                old(self).queued(c) ==> plan@.contains(c) || old(self).has_dirty_anc(c),
            forall|c: usize| plan@.contains(c) ==> old(self).queued(c),
            final(self).queue@.len() == 0,
            !final(self).flush_pending,
            final(self).flushes == old(self).flushes + 1,
            final(self).signals == old(self).signals,
            final(self).run_stack == old(self).run_stack,
            final(self).cleanup_log == old(self).cleanup_log,
            final(self).n_scopes() == old(self).n_scopes(),
            forall|c: usize|
                c < old(self).n_scopes() ==> {
                    &&& (#[trigger] final(self).scope(c)).parent == old(self).scope(c).parent
                    &&& final(self).scope(c).subs == old(self).scope(c).subs
                    &&& final(self).scope(c).alive == old(self).scope(c).alive
                    &&& final(self).scope(c).cleanups == old(self).scope(c).cleanups
                    &&& final(self).scope(c).comp == old(self).scope(c).comp
                    &&& final(self).scope(c).key == old(self).scope(c).key
                    &&& final(self).scope(c).props == old(self).scope(c).props
                    &&& final(self).scope(c).dirty == (old(self).scope(c).dirty && !(old(
                        self,
                    ).queued(c) && old(self).has_dirty_anc(c)))
                },
    {
        let n = self.queue.len();
        let mut plan: Vec<usize> = Vec::new();
        let mut skipped: Vec<usize> = Vec::new();
        let mut i: usize = 0;
        while i < n
            invariant
                *self == *old(self),
                self.wf(),
                i <= n,
                n == self.queue@.len(),
                forall|c: usize| #[trigger]
                    plan@.contains(c) ==> self.queue@.take(i as int).contains(c) && !self.has_dirty_anc(c),
                forall|c: usize| #[trigger]
                    skipped@.contains(c) ==> self.queue@.take(i as int).contains(c) && self.has_dirty_anc(c),
                forall|c: usize| #[trigger]
                    self.queue@.take(i as int).contains(c) ==> plan@.contains(c)
                        || skipped@.contains(c),
                distinct(plan@),
            decreases n - i,
        {
            let c = self.queue[i];
            proof {
                assert(self.queue@.contains(self.queue@[i as int]));
                assert(self.queue@.take(i as int + 1) == self.queue@.take(i as int).push(c));
                assert(!self.queue@.take(i as int).contains(c)) by {
                    if self.queue@.take(i as int).contains(c) {
                        let j = choose|j: int| 0 <= j < i && self.queue@.take(i as int)[j] == c;
                        assert(self.queue@[j] == c);
                        assert(false);
                    }
                }
            }
            if self.dirty_ancestor(c) {
                skipped.push(c);
            } else {
                let ghost p0 = plan@;
                plan.push(c);
                proof {
                    assert(plan@ == p0.push(c));
                    assert(!p0.contains(c)) by {
                        if p0.contains(c) {
                            assert(self.queue@.take(i as int).contains(c));
                        }
                    }
                    assert(distinct(plan@)) by {
                        assert forall|a: int, b: int|
                            0 <= a < b < plan@.len() implies plan@[a] != plan@[b] by {
                            if b == p0.len() {
                                assert(p0.contains(p0[a]));
                            }
                        }
                    }
                }
            }
            i += 1;
        }
        proof {
            assert(self.queue@.take(n as int) == self.queue@);
        }
        self.queue = Vec::new();
        self.flush_pending = false;
        self.flushes = self.flushes + 1;
        let m = skipped.len();
        let mut j: usize = 0;
        while j < m
            invariant
                old(self).wf(),
                j <= m,
                m == skipped@.len(),
                forall|c: usize| #[trigger]
                    skipped@.contains(c) ==> old(self).queue@.contains(c) && old(
                        self,
                    ).has_dirty_anc(c) && c < old(self).n_scopes(),
                self.n_scopes() == old(self).n_scopes(),
                self.signals == old(self).signals,
                self.run_stack == old(self).run_stack,
                self.cleanup_log == old(self).cleanup_log,
                self.queue@.len() == 0,
                !self.flush_pending,
                self.flushes == old(self).flushes + 1,
                forall|c: usize|
                    c < old(self).n_scopes() ==> {
                        &&& (#[trigger] self.scope(c)).parent == old(self).scope(c).parent
                        &&& self.scope(c).subs == old(self).scope(c).subs
                        &&& self.scope(c).alive == old(self).scope(c).alive
                        &&& self.scope(c).cleanups == old(self).scope(c).cleanups
                        &&& self.scope(c).comp == old(self).scope(c).comp
                        &&& self.scope(c).key == old(self).scope(c).key
                        &&& self.scope(c).props == old(self).scope(c).props
                        &&& self.scope(c).dirty == (old(self).scope(c).dirty && !skipped@.take(
                            j as int,
                        ).contains(c))
                    },
            decreases m - j,
        {
            let ghost pre = *self;
            let c = skipped[j];
            proof {
                assert(skipped@.contains(skipped@[j as int]));
                assert(skipped@.take(j as int + 1) == skipped@.take(j as int).push(c));
            }
            self.scopes[c].dirty = false;
            proof {
                assert forall|c2: usize|
                    c2 < old(self).n_scopes() implies {
                    &&& (#[trigger] self.scope(c2)).parent == old(self).scope(c2).parent
                    &&& self.scope(c2).subs == old(self).scope(c2).subs
                    &&& self.scope(c2).alive == old(self).scope(c2).alive
                    &&& self.scope(c2).cleanups == old(self).scope(c2).cleanups
                    &&& self.scope(c2).comp == old(self).scope(c2).comp
                    &&& self.scope(c2).key == old(self).scope(c2).key
                    &&& self.scope(c2).props == old(self).scope(c2).props
                    &&& self.scope(c2).dirty == (old(self).scope(c2).dirty && !skipped@.take(
                        j as int + 1,
                    ).contains(c2))
                } by {
                    if c2 == c {
                        assert(pre.scope(c).parent == old(self).scope(c).parent);
                        assert(pre.scope(c).subs == old(self).scope(c).subs);
                        assert(pre.scope(c).alive == old(self).scope(c).alive);
                        assert(pre.scope(c).cleanups == old(self).scope(c).cleanups);
                        assert(pre.scope(c).comp == old(self).scope(c).comp);
                        assert(pre.scope(c).key == old(self).scope(c).key);
                        assert(pre.scope(c).props == old(self).scope(c).props);
                        assert(skipped@.take(j as int + 1).contains(c));
                    } else {
                        assert(self.scope(c2) == pre.scope(c2));
                        assert(pre.scope(c2).dirty == (old(self).scope(c2).dirty
                            && !skipped@.take(j as int).contains(c2)));
                    }
                }
            }
            j += 1;
        }
        proof {
            assert(skipped@.take(m as int) == skipped@);
            assert forall|c2: usize|
                c2 < self.n_scopes() && (#[trigger] self.scope(c2)).dirty implies self.scope(
                c2,
            ).alive by {
                assert(old(self).wf_scope(c2));
            }
            lemma_wf_core_frame(*old(self), *self);
            assert forall|i2: int| 0 <= i2 < self.run_stack@.len() implies self.scope_alive(
                #[trigger] self.run_stack@[i2],
            ) by {
                assert(old(self).scope_alive(old(self).run_stack@[i2]));
            }
            assert forall|c: usize| old(self).queued(c) implies plan@.contains(c) || old(
                self,
            ).has_dirty_anc(c) by {
                if !plan@.contains(c) && !old(self).has_dirty_anc(c) {
                    assert(skipped@.contains(c));
                }
            }
            assert forall|k: int| 0 <= k < plan@.len() implies old(self).queued(
                #[trigger] plan@[k],
            ) by {
                assert(plan@.contains(plan@[k]));
            }
        }
        plan
    }

    /// `c` is `root` or an alive scope whose parent chain reaches `root`.
    pub open spec fn in_subtree(&self, root: usize, c: usize) -> bool
        decreases c,
    {
        if c == root {
            true
        } else {
            match self.scope(c).parent {
                Some(p) => if p < c {
                    self.scope(c).alive && self.in_subtree(root, p)
                } else {
                    false
                },
                None => false,
            }
        }
    }

    /// The signal's owning scope is being torn down with `root`'s subtree.
    pub open spec fn sig_owner_killed(&self, root: usize, g: usize) -> bool {
        match self.sig(g).owner {
            Some(o) => self.in_subtree(root, o),
            None => false,
        }
    }

    /// The cleanup tokens that disposing `root` runs, in execution order:
    /// for each disposed scope in creation order, its cleanups reversed.
    pub open spec fn killed_logs(&self, root: usize, upto: int) -> Seq<u64>
        decreases upto,
    {
        if upto <= 0 {
            Seq::empty()
        } else {
            self.killed_logs(root, upto - 1) + (if upto - 1 < self.n_scopes()
                && self.in_subtree(root, (upto - 1) as usize) {
                self.scope((upto - 1) as usize).cleanups@.reverse()
            } else {
                Seq::empty()
            })
        }
    }

    /// Anything inside `root`'s subtree has an index at least `root`.
    pub proof fn lemma_subtree_ge(&self, root: usize, c: usize)
        requires
            self.in_subtree(root, c),
        ensures
            c >= root,
        decreases c,
    {
        if c != root {
            match self.scope(c).parent {
                Some(p) => {
                    if p < c {
                        self.lemma_subtree_ge(root, p);
                    }
                },
                None => {},
            }
        }
    }

    /// Dispose a scope and everything under it: run its cleanups in reverse
    /// registration order (parents before children), destroy the signals the
    /// subtree owns, and unlink the disposed scopes from every signal, so no
    /// dangling observer remains.
    pub fn dispose(&mut self, root: usize)
        requires
            old(self).wf(),
            old(self).scope_alive(root),
            old(self).run_stack@.len() == 0,
        ensures
            final(self).wf(),
            final(self).n_sigs() == old(self).n_sigs(),
            final(self).n_scopes() == old(self).n_scopes(),
            forall|c: usize|
                c < old(self).n_scopes() ==> {
                    &&& (#[trigger] final(self).scope(c)).alive == (old(self).scope(c).alive
                        && !old(self).in_subtree(root, c))
                    &&& final(self).scope(c).parent == old(self).scope(c).parent
                    &&& final(self).scope(c).comp == old(self).scope(c).comp
                    &&& final(self).scope(c).key == old(self).scope(c).key
                },
            forall|c: usize|
                c < old(self).n_scopes() && !old(self).in_subtree(root, c) ==> ((
                #[trigger] final(self).scope(c)).dirty == old(self).scope(c).dirty && final(self).scope(c).cleanups == old(self).scope(c).cleanups && final(self).scope(c).props == old(self).scope(c).props),
            forall|c: usize, g: usize|
                c < old(self).n_scopes() && !old(self).in_subtree(root, c) ==> ((
                #[trigger] final(self).subscribed(c, g)) <==> (old(self).subscribed(c, g) && !old(
                    self,
                ).sig_owner_killed(root, g))),
            forall|g: usize|
                g < old(self).n_sigs() ==> ((#[trigger] final(self).sig(g)).value == old(
                    self,
                ).sig(g).value && final(self).sig(g).owner == old(self).sig(g).owner && final(self).sig(g).alive == (old(self).sig(g).alive && !old(self).sig_owner_killed(
                    root,
                    g,
                ))),
            forall|g: usize, c: usize|
                g < old(self).n_sigs() ==> ((#[trigger] final(self).depends(g, c)) <==> (old(
                    self,
                ).depends(g, c) && !old(self).in_subtree(root, c) && !old(self).sig_owner_killed(
                    root,
                    g,
                ))),
            forall|c: usize|
                (#[trigger] final(self).queue@.contains(c)) <==> (old(self).queue@.contains(c)
                    && !old(self).in_subtree(root, c)),
            final(self).cleanup_log@ == old(self).cleanup_log@ + old(self).killed_logs(
                root,
                old(self).n_scopes() as int,
            ),
            final(self).run_stack == old(self).run_stack,
            final(self).flush_pending == old(self).flush_pending,
            final(self).flushes == old(self).flushes,
    {
        let n = self.scopes.len();
        // Pass 1: which scopes go, by walking parents (always earlier indices).
        let mut marks: Vec<bool> = Vec::new();
        let mut id: usize = 0;
        while id < n
            invariant
                *self == *old(self),
                self.wf(),
                self.scope_alive(root),
                id <= n,
                n == self.n_scopes(),
                marks@.len() == id,
                forall|j: int| 0 <= j < id ==> marks@[j] == self.in_subtree(root, j as usize),
            decreases n - id,
        {
            proof {
                assert(self.wf_scope(id));
            }
            let mk: bool = if id == root {
                true
            } else if !self.scopes[id].alive {
                false
            } else {
                match self.scopes[id].parent {
                    Some(p) => marks[p],
                    None => false,
                }
            };
            proof {
                if id != root && !self.scope(id).alive {
                    assert(!self.in_subtree(root, id));
                }
            }
            marks.push(mk);
            id += 1;
        }
        // Pass 2: the cleanup tokens the disposal runs, in execution order.
        let mut log_add: Vec<u64> = Vec::new();
        id = 0;
        while id < n
            invariant
                *self == *old(self),
                self.wf(),
                id <= n,
                n == self.n_scopes(),
                marks@.len() == n,
                forall|j: int| 0 <= j < n ==> marks@[j] == self.in_subtree(root, j as usize),
                log_add@ == self.killed_logs(root, id as int),
            decreases n - id,
        {
            if marks[id] {
                let ghost l0 = log_add@;
                let cl = self.scopes[id].cleanups.len();
                let mut k: usize = cl;
                while k > 0
                    invariant
                        *self == *old(self),
                        k <= cl,
                        id < n == self.n_scopes(),
                        cl == self.scope(id).cleanups@.len(),
                        log_add@.len() == l0.len() + (cl - k),
                        log_add@.take(l0.len() as int) == l0,
                        forall|t: int|
                            0 <= t < cl - k ==> #[trigger] log_add@[l0.len() + t] == self.scope(
                                id,
                            ).cleanups@[cl - 1 - t],
                    decreases k,
                {
                    k -= 1;
                    let tok = self.scopes[id].cleanups[k];
                    let ghost la = log_add@;
                    log_add.push(tok);
                    proof {
                        assert(log_add@ == la.push(tok));
                        assert(log_add@.take(l0.len() as int) =~= l0);
                    }
                }
                proof {
                    assert forall|i2: int| 0 <= i2 < log_add@.len() implies log_add@[i2] == (l0
                        + self.scope(id).cleanups@.reverse())[i2] by {
                        if i2 >= l0.len() {
                            let t = i2 - l0.len();
                            assert(log_add@[l0.len() + t] == self.scope(id).cleanups@[cl - 1 - t]);
                        } else {
                            assert(log_add@.take(l0.len() as int)[i2] == l0[i2]);
                        }
                    }
                    assert(log_add@ =~= l0 + self.scope(id).cleanups@.reverse());
                }
            }
            proof {
                assert(self.killed_logs(root, id as int + 1) == self.killed_logs(root, id as int)
                    + (if self.in_subtree(root, id) {
                    self.scope(id).cleanups@.reverse()
                } else {
                    Seq::empty()
                }));
                if !marks@[id as int] {
                    assert(log_add@ =~= log_add@ + Seq::<u64>::empty());
                }
            }
            id += 1;
        }
        self.cleanup_log.append(&mut log_add);
        // Pass 3: drop the disposed scopes from the scheduler queue.
        let mut new_queue: Vec<usize> = Vec::new();
        let nq = self.queue.len();
        let mut qi: usize = 0;
        while qi < nq
            invariant
                old(self).wf(),
                self.scopes == old(self).scopes,
                self.signals == old(self).signals,
                self.queue == old(self).queue,
                qi <= nq,
                nq == self.queue@.len(),
                n == self.n_scopes(),
                marks@.len() == n,
                forall|j: int| 0 <= j < n ==> marks@[j] == old(self).in_subtree(root, j as usize),
                forall|c: usize| #[trigger]
                    new_queue@.contains(c) <==> (old(self).queue@.take(qi as int).contains(c)
                        && !old(self).in_subtree(root, c)),
                distinct(new_queue@),
                forall|c: usize| #[trigger]
                    new_queue@.contains(c) ==> old(self).queue@.contains(c),
            decreases nq - qi,
        {
            let c = self.queue[qi];
            proof {
                assert(old(self).queue@.contains(old(self).queue@[qi as int]));
                assert(old(self).wf_queue());
                assert(old(self).queue@.take(qi as int + 1) == old(self).queue@.take(
                    qi as int,
                ).push(c));
                assert(!old(self).queue@.take(qi as int).contains(c)) by {
                    if old(self).queue@.take(qi as int).contains(c) {
                        let j = choose|j: int|
                            0 <= j < qi && old(self).queue@.take(qi as int)[j] == c;
                        assert(old(self).queue@[j] == c);
                        assert(false);
                    }
                }
            }
            if !marks[c] {
                let ghost nq0 = new_queue@;
                new_queue.push(c);
                proof {
                    assert(new_queue@ == nq0.push(c));
                    assert(distinct(new_queue@)) by {
                        assert forall|a: int, b: int|
                            0 <= a < b < new_queue@.len() implies new_queue@[a]
                            != new_queue@[b] by {
                            if b == nq0.len() {
                                assert(nq0.contains(nq0[a]));
                            }
                        }
                    }
                }
            }
            qi += 1;
        }
        proof {
            assert(old(self).queue@.take(nq as int) == old(self).queue@);
        }
        self.queue = new_queue;
        let ghost mid = *self;
        // Pass 4: tear the disposed scopes down and unhook surviving scopes
        // from dying signals.
        id = 0;
        while id < n
            invariant
                old(self).wf(),
                old(self).scope_alive(root),
                id <= n,
                n == self.n_scopes(),
                n == old(self).n_scopes(),
                marks@.len() == n,
                forall|j: int| 0 <= j < n ==> marks@[j] == old(self).in_subtree(root, j as usize),
                self.signals == old(self).signals,
                self.run_stack == old(self).run_stack,
                self.flush_pending == old(self).flush_pending,
                self.flushes == old(self).flushes,
                self.cleanup_log == mid.cleanup_log,
                self.queue == mid.queue,
                mid.cleanup_log@ == old(self).cleanup_log@ + old(self).killed_logs(
                    root,
                    old(self).n_scopes() as int,
                ),
                forall|c: usize|
                    (#[trigger] mid.queue@.contains(c)) <==> (old(self).queue@.contains(c) && !old(
                        self,
                    ).in_subtree(root, c)),
                distinct(mid.queue@),
                forall|c: usize|
                    id <= c < n ==> (#[trigger] self.scope(c)) == old(self).scope(c),
                forall|c: usize|
                    c < id && old(self).in_subtree(root, c) ==> {
                        &&& !(#[trigger] self.scope(c)).alive
                        &&& !self.scope(c).dirty
                        &&& self.scope(c).subs@.len() == 0
                        &&& self.scope(c).cleanups@.len() == 0
                        &&& self.scope(c).parent == old(self).scope(c).parent
                        &&& self.scope(c).comp == old(self).scope(c).comp
                        &&& self.scope(c).key == old(self).scope(c).key
                    },
                forall|c: usize|
                    c < id && !old(self).in_subtree(root, c) ==> {
                        &&& (#[trigger] self.scope(c)).alive == old(self).scope(c).alive
                        &&& self.scope(c).dirty == old(self).scope(c).dirty
                        &&& self.scope(c).cleanups == old(self).scope(c).cleanups
                        &&& self.scope(c).parent == old(self).scope(c).parent
                        &&& self.scope(c).comp == old(self).scope(c).comp
                        &&& self.scope(c).key == old(self).scope(c).key
                        &&& self.scope(c).props == old(self).scope(c).props
                        &&& distinct(self.scope(c).subs@)
                    },
                forall|c: usize, g: usize|
                    c < id && !old(self).in_subtree(root, c) ==> ((#[trigger] self.scope(
                        c,
                    ).subs@.contains(g)) <==> (old(self).subscribed(c, g) && !old(
                        self,
                    ).sig_owner_killed(root, g))),
            decreases n - id,
        {
            let ghost pre = *self;
            if marks[id] {
                let parent0 = self.scopes[id].parent;
                let comp0 = self.scopes[id].comp;
                let key0 = self.scopes[id].key;
                self.scopes[id] = ScopeRec {
                    parent: parent0,
                    subs: Vec::new(),
                    dirty: false,
                    alive: false,
                    cleanups: Vec::new(),
                    comp: comp0,
                    key: key0,
                    props: Props::empty(),
                };
                proof {
                    assert(old(self).in_subtree(root, id));
                    assert forall|c: usize| id + 1 <= c < n implies (#[trigger] self.scope(c))
                        == old(self).scope(c) by {
                        assert(pre.scope(c) == old(self).scope(c));
                        assert(self.scope(c) == pre.scope(c));
                    }
                    assert forall|c: usize|
                        c < id + 1 && old(self).in_subtree(root, c) implies {
                        &&& !(#[trigger] self.scope(c)).alive
                        &&& !self.scope(c).dirty
                        &&& self.scope(c).subs@.len() == 0
                        &&& self.scope(c).cleanups@.len() == 0
                        &&& self.scope(c).parent == old(self).scope(c).parent
                        &&& self.scope(c).comp == old(self).scope(c).comp
                        &&& self.scope(c).key == old(self).scope(c).key
                    } by {
                        if c < id {
                            assert(self.scope(c) == pre.scope(c));
                            assert(!pre.scope(c).alive);
                            assert(!pre.scope(c).dirty);
                            assert(pre.scope(c).subs@.len() == 0);
                            assert(pre.scope(c).cleanups@.len() == 0);
                            assert(pre.scope(c).parent == old(self).scope(c).parent);
                            assert(pre.scope(c).comp == old(self).scope(c).comp);
                            assert(pre.scope(c).key == old(self).scope(c).key);
                        } else {
                            assert(pre.scope(id) == old(self).scope(id));
                        }
                    }
                    assert forall|c: usize|
                        c < id + 1 && !old(self).in_subtree(root, c) implies {
                        &&& (#[trigger] self.scope(c)).alive == old(self).scope(c).alive
                        &&& self.scope(c).dirty == old(self).scope(c).dirty
                        &&& self.scope(c).cleanups == old(self).scope(c).cleanups
                        &&& self.scope(c).parent == old(self).scope(c).parent
                        &&& self.scope(c).comp == old(self).scope(c).comp
                        &&& self.scope(c).key == old(self).scope(c).key
                        &&& self.scope(c).props == old(self).scope(c).props
                        &&& distinct(self.scope(c).subs@)
                    } by {
                        assert(c != id);
                        assert(self.scope(c) == pre.scope(c));
                        assert(pre.scope(c).alive == old(self).scope(c).alive);
                        assert(pre.scope(c).dirty == old(self).scope(c).dirty);
                        assert(pre.scope(c).cleanups == old(self).scope(c).cleanups);
                        assert(pre.scope(c).parent == old(self).scope(c).parent);
                        assert(pre.scope(c).comp == old(self).scope(c).comp);
                        assert(pre.scope(c).key == old(self).scope(c).key);
                        assert(pre.scope(c).props == old(self).scope(c).props);
                        assert(distinct(pre.scope(c).subs@));
                    }
                    assert forall|c: usize, g: usize|
                        c < id + 1 && !old(self).in_subtree(root, c) implies ((
                    #[trigger] self.scope(c).subs@.contains(g)) <==> (old(self).subscribed(c, g)
                        && !old(self).sig_owner_killed(root, g))) by {
                        assert(c != id);
                        assert(self.scope(c) == pre.scope(c));
                        assert((pre.scope(c).subs@.contains(g)) <==> (old(self).subscribed(c, g)
                            && !old(self).sig_owner_killed(root, g)));
                    }
                }
            } else {
                let sl = self.scopes[id].subs.len();
                let mut subs2: Vec<usize> = Vec::new();
                let mut k: usize = 0;
                proof {
                    assert(old(self).wf_scope(id));
                    assert(self.scope(id) == old(self).scope(id));
                }
                while k < sl
                    invariant
                        old(self).wf(),
                        k <= sl,
                        id < n,
                        n == old(self).n_scopes(),
                        marks@.len() == n,
                        forall|j: int|
                            0 <= j < n ==> marks@[j] == old(self).in_subtree(root, j as usize),
                        self.signals == old(self).signals,
                        self.scope(id) == old(self).scope(id),
                        n == self.n_scopes(),
                        sl == old(self).scope(id).subs@.len(),
                        forall|g: usize| #[trigger]
                            subs2@.contains(g) <==> (old(self).scope(id).subs@.take(
                                k as int,
                            ).contains(g) && !old(self).sig_owner_killed(root, g)),
                        distinct(subs2@),
                        forall|g: usize| #[trigger]
                            subs2@.contains(g) ==> old(self).scope(id).subs@.contains(g),
                    decreases sl - k,
                {
                    let g2 = self.scopes[id].subs[k];
                    proof {
                        assert(old(self).scope(id).subs@.contains(old(self).scope(
                            id,
                        ).subs@[k as int]));
                        assert(old(self).wf_scope(id));
                        assert(old(self).scope(id).alive ==> old(self).sig_alive(g2));
                        if !old(self).scope(id).alive {
                            assert(old(self).scope(id).subs@.len() == 0);
                        }
                        assert(old(self).wf_sig(g2));
                        assert(old(self).scope(id).subs@.take(k as int + 1) == old(
                            self,
                        ).scope(id).subs@.take(k as int).push(g2));
                        assert(!old(self).scope(id).subs@.take(k as int).contains(g2)) by {
                            if old(self).scope(id).subs@.take(k as int).contains(g2) {
                                let j = choose|j: int|
                                    0 <= j < k && old(self).scope(id).subs@.take(k as int)[j]
                                        == g2;
                                assert(old(self).scope(id).subs@[j] == g2);
                                assert(false);
                            }
                        }
                    }
                    let keep: bool = match self.signals[g2].owner {
                        Some(o) => {
                            proof {
                                if old(self).sig(g2).alive {
                                    assert(old(self).scope_alive(o));
                                }
                            }
                            !marks[o]
                        },
                        None => true,
                    };
                    if keep {
                        let ghost s0 = subs2@;
                        subs2.push(g2);
                        proof {
                            assert(subs2@ == s0.push(g2));
                            assert(distinct(subs2@)) by {
                                assert forall|a: int, b: int|
                                    0 <= a < b < subs2@.len() implies subs2@[a] != subs2@[b] by {
                                    if b == s0.len() {
                                        assert(s0.contains(s0[a]));
                                    }
                                }
                            }
                        }
                    }
                    k += 1;
                }
                proof {
                    assert(old(self).scope(id).subs@.take(sl as int) == old(self).scope(id).subs@);
                }
                self.scopes[id].subs = subs2;
                proof {
                    assert(!old(self).in_subtree(root, id));
                    assert(pre.scope(id) == old(self).scope(id));
                    assert(self.scope(id).subs@ == subs2@);
                    assert forall|c: usize| id + 1 <= c < n implies (#[trigger] self.scope(c))
                        == old(self).scope(c) by {
                        assert(pre.scope(c) == old(self).scope(c));
                        assert(self.scope(c) == pre.scope(c));
                    }
                    assert forall|c: usize|
                        c < id + 1 && old(self).in_subtree(root, c) implies {
                        &&& !(#[trigger] self.scope(c)).alive
                        &&& !self.scope(c).dirty
                        &&& self.scope(c).subs@.len() == 0
                        &&& self.scope(c).cleanups@.len() == 0
                        &&& self.scope(c).parent == old(self).scope(c).parent
                        &&& self.scope(c).comp == old(self).scope(c).comp
                        &&& self.scope(c).key == old(self).scope(c).key
                    } by {
                        assert(c != id);
                        assert(self.scope(c) == pre.scope(c));
                        assert(!pre.scope(c).alive);
                        assert(!pre.scope(c).dirty);
                        assert(pre.scope(c).subs@.len() == 0);
                        assert(pre.scope(c).cleanups@.len() == 0);
                        assert(pre.scope(c).parent == old(self).scope(c).parent);
                        assert(pre.scope(c).comp == old(self).scope(c).comp);
                        assert(pre.scope(c).key == old(self).scope(c).key);
                    }
                    assert forall|c: usize|
                        c < id + 1 && !old(self).in_subtree(root, c) implies {
                        &&& (#[trigger] self.scope(c)).alive == old(self).scope(c).alive
                        &&& self.scope(c).dirty == old(self).scope(c).dirty
                        &&& self.scope(c).cleanups == old(self).scope(c).cleanups
                        &&& self.scope(c).parent == old(self).scope(c).parent
                        &&& self.scope(c).comp == old(self).scope(c).comp
                        &&& self.scope(c).key == old(self).scope(c).key
                        &&& self.scope(c).props == old(self).scope(c).props
                        &&& distinct(self.scope(c).subs@)
                    } by {
                        if c < id {
                            assert(self.scope(c) == pre.scope(c));
                            assert(pre.scope(c).alive == old(self).scope(c).alive);
                            assert(pre.scope(c).dirty == old(self).scope(c).dirty);
                            assert(pre.scope(c).cleanups == old(self).scope(c).cleanups);
                            assert(pre.scope(c).parent == old(self).scope(c).parent);
                            assert(pre.scope(c).comp == old(self).scope(c).comp);
                            assert(pre.scope(c).key == old(self).scope(c).key);
                            assert(pre.scope(c).props == old(self).scope(c).props);
                            assert(distinct(pre.scope(c).subs@));
                        }
                    }
                    assert forall|c: usize, g: usize|
                        c < id + 1 && !old(self).in_subtree(root, c) implies ((
                    #[trigger] self.scope(c).subs@.contains(g)) <==> (old(self).subscribed(c, g)
                        && !old(self).sig_owner_killed(root, g))) by {
                        if c < id {
                            assert(self.scope(c) == pre.scope(c));
                            assert((pre.scope(c).subs@.contains(g)) <==> (old(self).subscribed(
                                c,
                                g,
                            ) && !old(self).sig_owner_killed(root, g)));
                        } else {
                            assert(subs2@.contains(g) <==> (old(self).scope(id).subs@.take(
                                sl as int,
                            ).contains(g) && !old(self).sig_owner_killed(root, g)));
                        }
                    }
                }
            }
            id += 1;
        }
        let ghost mid2 = *self;
        // Pass 5: destroy the signals the subtree owned and unhook the
        // disposed scopes from the surviving ones.
        let m2 = self.signals.len();
        let mut gi: usize = 0;
        while gi < m2
            invariant
                old(self).wf(),
                old(self).scope_alive(root),
                gi <= m2,
                m2 == self.n_sigs(),
                m2 == old(self).n_sigs(),
                n == old(self).n_scopes(),
                n == mid2.n_scopes(),
                marks@.len() == n,
                forall|j: int| 0 <= j < n ==> marks@[j] == old(self).in_subtree(root, j as usize),
                self.scopes == mid2.scopes,
                self.run_stack == old(self).run_stack,
                self.flush_pending == old(self).flush_pending,
                self.flushes == old(self).flushes,
                self.cleanup_log == mid.cleanup_log,
                self.queue == mid.queue,
                mid.cleanup_log@ == old(self).cleanup_log@ + old(self).killed_logs(
                    root,
                    old(self).n_scopes() as int,
                ),
                forall|c: usize|
                    (#[trigger] mid.queue@.contains(c)) <==> (old(self).queue@.contains(c) && !old(
                        self,
                    ).in_subtree(root, c)),
                distinct(mid.queue@),
                forall|c: usize|
                    c < n && old(self).in_subtree(root, c) ==> {
                        &&& !(#[trigger] mid2.scope(c)).alive
                        &&& !mid2.scope(c).dirty
                        &&& mid2.scope(c).subs@.len() == 0
                        &&& mid2.scope(c).cleanups@.len() == 0
                        &&& mid2.scope(c).parent == old(self).scope(c).parent
                        &&& mid2.scope(c).comp == old(self).scope(c).comp
                        &&& mid2.scope(c).key == old(self).scope(c).key
                    },
                forall|c: usize|
                    c < n && !old(self).in_subtree(root, c) ==> {
                        &&& (#[trigger] mid2.scope(c)).alive == old(self).scope(c).alive
                        &&& mid2.scope(c).dirty == old(self).scope(c).dirty
                        &&& mid2.scope(c).cleanups == old(self).scope(c).cleanups
                        &&& mid2.scope(c).parent == old(self).scope(c).parent
                        &&& mid2.scope(c).comp == old(self).scope(c).comp
                        &&& mid2.scope(c).key == old(self).scope(c).key
                        &&& mid2.scope(c).props == old(self).scope(c).props
                        &&& distinct(mid2.scope(c).subs@)
                    },
                forall|c: usize, g: usize|
                    c < n && !old(self).in_subtree(root, c) ==> ((#[trigger] mid2.scope(
                        c,
                    ).subs@.contains(g)) <==> (old(self).subscribed(c, g) && !old(
                        self,
                    ).sig_owner_killed(root, g))),
                forall|g: usize| gi <= g < m2 ==> (#[trigger] self.sig(g)) == old(self).sig(g),
                forall|g: usize|
                    g < gi ==> {
                        &&& (#[trigger] self.sig(g)).value == old(self).sig(g).value
                        &&& self.sig(g).owner == old(self).sig(g).owner
                        &&& self.sig(g).alive == (old(self).sig(g).alive && !old(
                            self,
                        ).sig_owner_killed(root, g))
                        &&& distinct(self.sig(g).dependents@)
                    },
                forall|g: usize, c: usize|
                    g < gi ==> ((#[trigger] self.sig(g).dependents@.contains(c)) <==> (old(
                        self,
                    ).depends(g, c) && !old(self).in_subtree(root, c) && !old(
                        self,
                    ).sig_owner_killed(root, g))),
            decreases m2 - gi,
        {
            let ghost pre = *self;
            let alive_g = self.signals[gi].alive;
            let killed: bool = alive_g && match self.signals[gi].owner {
                Some(o) => {
                    proof {
                        assert(old(self).wf_sig(gi));
                        if old(self).sig(gi).alive {
                            assert(old(self).scope_alive(o));
                        }
                    }
                    marks[o]
                },
                None => false,
            };
            if killed {
                let ghost mid3 = *self;
                self.signals[gi].alive = false;
                proof {
                    assert(self.sig(gi).value == mid3.sig(gi).value);
                }
                self.signals[gi].dependents = Vec::new();
                proof {
                    assert(old(self).sig_owner_killed(root, gi));
                    assert forall|g: usize| gi + 1 <= g < m2 implies (#[trigger] self.sig(g))
                        == old(self).sig(g) by {
                        assert(pre.sig(g) == old(self).sig(g));
                        assert(self.sig(g) == pre.sig(g));
                    }
                    assert forall|g: usize|
                        g < gi + 1 implies {
                        &&& (#[trigger] self.sig(g)).value == old(self).sig(g).value
                        &&& self.sig(g).owner == old(self).sig(g).owner
                        &&& self.sig(g).alive == (old(self).sig(g).alive && !old(
                            self,
                        ).sig_owner_killed(root, g))
                        &&& distinct(self.sig(g).dependents@)
                    } by {
                        if g < gi {
                            assert(self.sig(g) == pre.sig(g));
                            assert(pre.sig(g).value == old(self).sig(g).value);
                            assert(pre.sig(g).owner == old(self).sig(g).owner);
                            assert(pre.sig(g).alive == (old(self).sig(g).alive && !old(
                                self,
                            ).sig_owner_killed(root, g)));
                            assert(distinct(pre.sig(g).dependents@));
                        } else {
                            assert(pre.sig(gi) == old(self).sig(gi));
                        }
                    }
                    assert forall|g: usize, c: usize|
                        g < gi + 1 implies ((#[trigger] self.sig(g).dependents@.contains(c)) <==> (
                        old(self).depends(g, c) && !old(self).in_subtree(root, c) && !old(
                            self,
                        ).sig_owner_killed(root, g))) by {
                        if g < gi {
                            assert(self.sig(g) == pre.sig(g));
                            assert((pre.sig(g).dependents@.contains(c)) <==> (old(self).depends(
                                g,
                                c,
                            ) && !old(self).in_subtree(root, c) && !old(self).sig_owner_killed(
                                root,
                                g,
                            )));
                        }
                    }
                }
            } else if alive_g {
                let dl = self.signals[gi].dependents.len();
                let mut deps2: Vec<usize> = Vec::new();
                let mut k: usize = 0;
                proof {
                    assert(old(self).wf_sig(gi));
                    assert(pre.sig(gi) == old(self).sig(gi));
                }
                while k < dl
                    invariant
                        old(self).wf(),
                        k <= dl,
                        gi < m2,
                        n == old(self).n_scopes(),
                        marks@.len() == n,
                        forall|j: int|
                            0 <= j < n ==> marks@[j] == old(self).in_subtree(root, j as usize),
                        self.sig(gi) == old(self).sig(gi),
                        old(self).sig(gi).alive,
                        m2 == self.n_sigs(),
                        m2 == old(self).n_sigs(),
                        dl == old(self).sig(gi).dependents@.len(),
                        forall|c: usize|
                            (#[trigger] deps2@.contains(c)) <==> (old(self).sig(
                                gi,
                            ).dependents@.take(k as int).contains(c) && !old(self).in_subtree(
                                root,
                                c,
                            )),
                        distinct(deps2@),
                        forall|c: usize|
                            (#[trigger] deps2@.contains(c)) ==> old(self).sig(
                                gi,
                            ).dependents@.contains(c),
                    decreases dl - k,
                {
                    let c2 = self.signals[gi].dependents[k];
                    proof {
                        assert(old(self).sig(gi).dependents@.contains(old(self).sig(
                            gi,
                        ).dependents@[k as int]));
                        assert(old(self).wf_sig(gi));
                        assert(old(self).scope_alive(c2));
                        assert(old(self).sig(gi).dependents@.take(k as int + 1) == old(self).sig(
                            gi,
                        ).dependents@.take(k as int).push(c2));
                        assert(!old(self).sig(gi).dependents@.take(k as int).contains(c2)) by {
                            if old(self).sig(gi).dependents@.take(k as int).contains(c2) {
                                let j = choose|j: int|
                                    0 <= j < k && old(self).sig(gi).dependents@.take(k as int)[j]
                                        == c2;
                                assert(old(self).sig(gi).dependents@[j] == c2);
                                assert(false);
                            }
                        }
                    }
                    if !marks[c2] {
                        let ghost d0 = deps2@;
                        deps2.push(c2);
                        proof {
                            assert(deps2@ == d0.push(c2));
                            assert(distinct(deps2@)) by {
                                assert forall|a: int, b: int|
                                    0 <= a < b < deps2@.len() implies deps2@[a] != deps2@[b] by {
                                    if b == d0.len() {
                                        assert(d0.contains(d0[a]));
                                    }
                                }
                            }
                        }
                    }
                    k += 1;
                }
                proof {
                    assert(old(self).sig(gi).dependents@.take(dl as int) == old(self).sig(
                        gi,
                    ).dependents@);
                }
                self.signals[gi].dependents = deps2;
                proof {
                    assert(!old(self).sig_owner_killed(root, gi)) by {
                        match old(self).sig(gi).owner {
                            Some(o) => {
                                if old(self).in_subtree(root, o) {
                                    assert(false);
                                }
                            },
                            None => {},
                        }
                    }
                    assert forall|g: usize| gi + 1 <= g < m2 implies (#[trigger] self.sig(g))
                        == old(self).sig(g) by {
                        assert(pre.sig(g) == old(self).sig(g));
                        assert(self.sig(g) == pre.sig(g));
                    }
                    assert forall|g: usize|
                        g < gi + 1 implies {
                        &&& (#[trigger] self.sig(g)).value == old(self).sig(g).value
                        &&& self.sig(g).owner == old(self).sig(g).owner
                        &&& self.sig(g).alive == (old(self).sig(g).alive && !old(
                            self,
                        ).sig_owner_killed(root, g))
                        &&& distinct(self.sig(g).dependents@)
                    } by {
                        if g < gi {
                            assert(self.sig(g) == pre.sig(g));
                            assert(pre.sig(g).value == old(self).sig(g).value);
                            assert(pre.sig(g).owner == old(self).sig(g).owner);
                            assert(pre.sig(g).alive == (old(self).sig(g).alive && !old(
                                self,
                            ).sig_owner_killed(root, g)));
                            assert(distinct(pre.sig(g).dependents@));
                        } else {
                            assert(self.sig(gi).value == pre.sig(gi).value);
                            assert(self.sig(gi).dependents@ == deps2@);
                        }
                    }
                    assert forall|g: usize, c: usize|
                        g < gi + 1 implies ((#[trigger] self.sig(g).dependents@.contains(c)) <==> (
                        old(self).depends(g, c) && !old(self).in_subtree(root, c) && !old(
                            self,
                        ).sig_owner_killed(root, g))) by {
                        if g < gi {
                            assert(self.sig(g) == pre.sig(g));
                            assert((pre.sig(g).dependents@.contains(c)) <==> (old(self).depends(
                                g,
                                c,
                            ) && !old(self).in_subtree(root, c) && !old(self).sig_owner_killed(
                                root,
                                g,
                            )));
                        } else {
                            assert(self.sig(gi).dependents@ == deps2@);
                            assert((deps2@.contains(c)) <==> (old(self).sig(gi).dependents@.take(
                                dl as int,
                            ).contains(c) && !old(self).in_subtree(root, c)));
                        }
                    }
                }
            } else {
                proof {
                    assert(old(self).wf_sig(gi));
                    assert(pre.sig(gi) == old(self).sig(gi));
                    assert(old(self).sig(gi).dependents@.len() == 0);
                    assert forall|g: usize| gi + 1 <= g < m2 implies (#[trigger] self.sig(g))
                        == old(self).sig(g) by {}
                    assert forall|g: usize|
                        g < gi + 1 implies {
                        &&& (#[trigger] self.sig(g)).value == old(self).sig(g).value
                        &&& self.sig(g).owner == old(self).sig(g).owner
                        &&& self.sig(g).alive == (old(self).sig(g).alive && !old(
                            self,
                        ).sig_owner_killed(root, g))
                        &&& distinct(self.sig(g).dependents@)
                    } by {
                        if g == gi {
                            assert(self.sig(gi) == old(self).sig(gi));
                        }
                    }
                    assert forall|g: usize, c: usize|
                        g < gi + 1 implies ((#[trigger] self.sig(g).dependents@.contains(c)) <==> (
                        old(self).depends(g, c) && !old(self).in_subtree(root, c) && !old(
                            self,
                        ).sig_owner_killed(root, g))) by {
                        if g == gi {
                            assert(self.sig(gi) == old(self).sig(gi));
                            if self.sig(gi).dependents@.contains(c) {
                                assert(false);
                            }
                        }
                    }
                }
            }
            gi += 1;
        }
        // The invariant holds again of what survives.
        proof {
            let pre = *old(self);
            assert forall|g: usize| g < self.n_sigs() implies #[trigger] self.wf_sig(g) by {
                assert(pre.wf_sig(g));
                assert forall|c: usize| self.sig(g).dependents@.contains(c) implies self.scope_alive(
                    c,
                ) by {
                    assert(pre.depends(g, c) && !pre.in_subtree(root, c));
                    assert(pre.wf_sig(g));
                    if pre.sig(g).alive {
                        assert(pre.scope_alive(c));
                        assert(self.scope(c) == mid2.scope(c));
                        assert(mid2.scope(c).alive == pre.scope(c).alive);
                    } else {
                        assert(pre.sig(g).dependents@.len() == 0);
                        assert(false);
                    }
                }
                if self.sig(g).alive {
                    match self.sig(g).owner {
                        Some(o) => {
                            assert(self.sig(g).owner == pre.sig(g).owner);
                            assert(self.sig(g).alive == (pre.sig(g).alive
                                && !pre.sig_owner_killed(root, g)));
                            assert(pre.scope_alive(o));
                            assert(!pre.in_subtree(root, o));
                            assert(self.scope(o) == mid2.scope(o));
                            assert(mid2.scope(o).alive == pre.scope(o).alive);
                        },
                        None => {},
                    }
                }
                if !self.sig(g).alive {
                    if self.sig(g).dependents@.len() > 0 {
                        let c0 = self.sig(g).dependents@[0];
                        assert(self.sig(g).dependents@.contains(c0));
                        assert(pre.depends(g, c0) && !pre.sig_owner_killed(root, g));
                        assert(pre.wf_sig(g));
                        if !pre.sig(g).alive {
                            assert(pre.sig(g).dependents@.len() == 0);
                        }
                        assert(false);
                    }
                }
            }
            assert forall|c: usize| c < self.n_scopes() implies #[trigger] self.wf_scope(c) by {
                assert(pre.wf_scope(c));
                assert(self.scope(c) == mid2.scope(c));
                if pre.in_subtree(root, c) {
                    assert(!mid2.scope(c).alive);
                    assert(!mid2.scope(c).dirty);
                    assert(mid2.scope(c).subs@.len() == 0);
                    assert(mid2.scope(c).parent == pre.scope(c).parent);
                } else {
                    assert(mid2.scope(c).alive == pre.scope(c).alive);
                    assert(mid2.scope(c).dirty == pre.scope(c).dirty);
                    assert(distinct(mid2.scope(c).subs@));
                    assert forall|g: usize| self.scope(c).subs@.contains(g) implies self.sig_alive(
                        g,
                    ) by {
                        assert(mid2.scope(c).subs@.contains(g));
                        assert(pre.subscribed(c, g) && !pre.sig_owner_killed(root, g));
                        if pre.scope(c).alive {
                            assert(pre.sig_alive(g));
                            assert(self.sig(g).alive == (pre.sig(g).alive
                                && !pre.sig_owner_killed(root, g)));
                        } else {
                            assert(pre.scope(c).subs@.len() == 0);
                            assert(false);
                        }
                    }
                    if !self.scope(c).alive {
                        if self.scope(c).subs@.len() > 0 {
                            let g0 = self.scope(c).subs@[0];
                            assert(self.scope(c).subs@.contains(g0));
                            assert(mid2.scope(c).subs@.contains(g0));
                            assert(pre.subscribed(c, g0));
                            assert(pre.scope(c).subs@.len() == 0);
                            assert(false);
                        }
                    }
                    match self.scope(c).parent {
                        Some(p) => {
                            assert(mid2.scope(c).parent == pre.scope(c).parent);
                            assert(p < c);
                            if self.scope(c).alive {
                                assert(pre.scope_alive(p));
                                assert(!pre.in_subtree(root, p)) by {
                                    if pre.in_subtree(root, p) {
                                        pre.lemma_subtree_ge(root, p);
                                        if c == root {
                                            assert(false);
                                        } else {
                                            assert(pre.in_subtree(root, c));
                                            assert(false);
                                        }
                                    }
                                }
                                assert(self.scope(p) == mid2.scope(p));
                                assert(mid2.scope(p).alive == pre.scope(p).alive);
                            }
                        },
                        None => {},
                    }
                }
            }
            assert forall|g: usize, c: usize|
                g < self.n_sigs() && c < self.n_scopes() implies (#[trigger] self.depends(g, c)
                <==> #[trigger] self.subscribed(c, g)) by {
                assert(pre.depends(g, c) <==> pre.subscribed(c, g));
                assert(self.scope(c) == mid2.scope(c));
                assert((self.sig(g).dependents@.contains(c)) <==> (pre.depends(g, c)
                    && !pre.in_subtree(root, c) && !pre.sig_owner_killed(root, g)));
                if pre.in_subtree(root, c) {
                    assert(mid2.scope(c).subs@.len() == 0);
                    assert(!self.subscribed(c, g));
                } else {
                    assert((mid2.scope(c).subs@.contains(g)) <==> (pre.subscribed(c, g)
                        && !pre.sig_owner_killed(root, g)));
                }
            }
            assert forall|i2: int| 0 <= i2 < self.queue@.len() implies self.scope_alive(
                #[trigger] self.queue@[i2],
            ) && self.scope(self.queue@[i2]).dirty by {
                assert(self.queue@.contains(self.queue@[i2]));
                let c = self.queue@[i2];
                assert(mid.queue@.contains(c));
                assert(pre.queue@.contains(c) && !pre.in_subtree(root, c));
                assert(pre.wf_queue());
                let j = choose|j: int| 0 <= j < pre.queue@.len() && pre.queue@[j] == c;
                assert(pre.scope_alive(pre.queue@[j]) && pre.scope(pre.queue@[j]).dirty);
                assert(self.scope(c) == mid2.scope(c));
                assert(mid2.scope(c).alive == pre.scope(c).alive);
                assert(mid2.scope(c).dirty == pre.scope(c).dirty);
            }
            assert(distinct(self.queue@)) by {
                assert(self.queue == mid.queue);
            }
            assert forall|c: usize|
                c < pre.n_scopes() implies {
                &&& (#[trigger] self.scope(c)).alive == (pre.scope(c).alive && !pre.in_subtree(
                    root,
                    c,
                ))
                &&& self.scope(c).parent == pre.scope(c).parent
                &&& self.scope(c).comp == pre.scope(c).comp
                &&& self.scope(c).key == pre.scope(c).key
            } by {
                assert(self.scope(c) == mid2.scope(c));
                assert(pre.wf_scope(c));
                if pre.in_subtree(root, c) {
                    assert(!mid2.scope(c).alive);
                    if c != root && !pre.scope(c).alive {
                        assert(!pre.in_subtree(root, c));
                        assert(false);
                    }
                } else {
                    assert(mid2.scope(c).alive == pre.scope(c).alive);
                }
            }
            assert forall|c: usize|
                c < pre.n_scopes() && !pre.in_subtree(root, c) implies ((#[trigger] self.scope(
                c,
            )).dirty == pre.scope(c).dirty && self.scope(c).cleanups == pre.scope(c).cleanups
                && self.scope(c).props == pre.scope(c).props) by {
                assert(self.scope(c) == mid2.scope(c));
            }
            assert forall|c: usize, g: usize|
                c < pre.n_scopes() && !pre.in_subtree(root, c) implies ((#[trigger] self.subscribed(
                c,
                g,
            )) <==> (pre.subscribed(c, g) && !pre.sig_owner_killed(root, g))) by {
                assert(self.scope(c) == mid2.scope(c));
                assert((mid2.scope(c).subs@.contains(g)) <==> (pre.subscribed(c, g)
                    && !pre.sig_owner_killed(root, g)));
            }
            assert forall|c: usize|
                (#[trigger] self.queue@.contains(c)) <==> (pre.queue@.contains(c)
                    && !pre.in_subtree(root, c)) by {
                assert(self.queue == mid.queue);
            }
        }
    }
}

/// The signal/scope/link parts of `wf` survive a change that keeps the
/// link structure, liveness and parents of every cell and scope.
pub proof fn lemma_wf_core_frame(pre: Runtime, post: Runtime)
    requires
        pre.wf(),
        post.n_sigs() == pre.n_sigs(),
        post.n_scopes() == pre.n_scopes(),
        forall|g: usize|
            g < pre.n_sigs() ==> (#[trigger] post.sig(g)).dependents == pre.sig(g).dependents
                && post.sig(g).alive == pre.sig(g).alive && post.sig(g).owner == pre.sig(g).owner,
        forall|c: usize|
            c < pre.n_scopes() ==> (#[trigger] post.scope(c)).subs == pre.scope(c).subs
                && post.scope(c).alive == pre.scope(c).alive && post.scope(c).parent == pre.scope(
                c,
            ).parent && (post.scope(c).dirty ==> post.scope(c).alive),
    ensures
        forall|g: usize| g < post.n_sigs() ==> #[trigger] post.wf_sig(g),
        forall|c: usize| c < post.n_scopes() ==> #[trigger] post.wf_scope(c),
        post.wf_links(),
{
    assert forall|g: usize| g < post.n_sigs() implies #[trigger] post.wf_sig(g) by {
        assert(pre.wf_sig(g));
        assert(post.sig(g).dependents == pre.sig(g).dependents);
        assert forall|c: usize| post.sig(g).dependents@.contains(c) implies post.scope_alive(
            c,
        ) by {
            if post.sig(g).alive {
                assert(pre.sig(g).dependents@.contains(c));
                assert(pre.scope_alive(c));
                assert(post.scope(c).alive == pre.scope(c).alive);
            }
        }
        if post.sig(g).alive {
            match post.sig(g).owner {
                Some(o) => {
                    assert(pre.scope_alive(o));
                    assert(post.scope(o).alive == pre.scope(o).alive);
                },
                None => {},
            }
        }
    }
    assert forall|c: usize| c < post.n_scopes() implies #[trigger] post.wf_scope(c) by {
        assert(pre.wf_scope(c));
        assert(post.scope(c).subs == pre.scope(c).subs);
        assert forall|g: usize| post.scope(c).subs@.contains(g) implies post.sig_alive(g) by {
            if post.scope(c).alive {
                assert(pre.scope(c).subs@.contains(g));
                assert(pre.sig_alive(g));
                assert(post.sig(g).alive == pre.sig(g).alive);
            }
        }
        match post.scope(c).parent {
            Some(p) => {
                if post.scope(c).alive {
                    assert(pre.scope_alive(p));
                    assert(post.scope(p).alive == pre.scope(p).alive);
                }
            },
            None => {},
        }
    }
    assert forall|g: usize, c: usize| g < post.n_sigs() && c < post.n_scopes() implies (
    #[trigger] post.depends(g, c) <==> #[trigger] post.subscribed(c, g)) by {
        assert(pre.depends(g, c) <==> pre.subscribed(c, g));
        assert(post.sig(g).dependents == pre.sig(g).dependents);
        assert(post.scope(c).subs == pre.scope(c).subs);
    }
}

/// Law: the dependency graph is symmetric. A scope stands in a signal's
/// dependent set exactly when the signal stands in the scope's read set —
/// and `begin_run` clears that read set while `read` extends it, so both
/// sides say: the scopes that read the signal during their most recent
/// evaluation.
pub proof fn lemma_dependency_symmetry(rt: &Runtime, g: usize, c: usize)
    requires
        rt.wf(),
        g < rt.n_sigs(),
        c < rt.n_scopes(),
    ensures
        rt.depends(g, c) <==> rt.subscribed(c, g),
{
    assert(rt.depends(g, c) <==> rt.subscribed(c, g));
}

/// Law: disposal is complete. Once no scope is left alive — as after
/// disposing a root that owned every scope — no signal retains any
/// dependent scope.
pub proof fn lemma_disposal_complete(rt: &Runtime)
    requires
        rt.wf(),
        forall|c: usize| !rt.scope_alive(c),
    ensures
        forall|g: usize| g < rt.n_sigs() ==> (#[trigger] rt.sig(g)).dependents@.len() == 0,
{
    assert forall|g: usize| g < rt.n_sigs() implies (#[trigger] rt.sig(g)).dependents@.len()
        == 0 by {
        assert(rt.wf_sig(g));
        if rt.sig(g).dependents@.len() > 0 {
            let c0 = rt.sig(g).dependents@[0];
            assert(rt.sig(g).dependents@.contains(c0));
            if rt.sig(g).alive {
                assert(rt.scope_alive(c0));
                assert(false);
            }
        }
    }
}

/// A plain copy of a vector of indices.
pub fn vec_copy(v: &Vec<usize>) -> (r: Vec<usize>)
    ensures
        r@ == v@,
{
    let n = v.len();
    let mut out: Vec<usize> = Vec::new();
    let mut i: usize = 0;
    while i < n
        invariant
            i <= n,
            n == v@.len(),
            out@ == v@.take(i as int),
        decreases n - i,
    {
        proof {
            assert(v@.take(i as int + 1) == v@.take(i as int).push(v@[i as int]));
        }
        out.push(v[i]);
        i += 1;
    }
    proof {
        assert(v@.take(n as int) == v@);
    }
    out
}

/// Whether a vector of indices contains `x`.
pub fn vec_has(v: &Vec<usize>, x: usize) -> (r: bool)
    ensures
        r == v@.contains(x),
{
    let n = v.len();
    let mut i: usize = 0;
    while i < n
        invariant
            n == v@.len(),
            i <= n,
            forall|j: int| 0 <= j < i ==> v@[j] != x,
        decreases n - i,
    {
        if v[i] == x {
            return true;
        }
        i += 1;
    }
    false
}

} // verus!
