//! Navigation: an in-memory location provider and the router's small state
//! machine. `Navigating` is transient — it exists so the signal writes a
//! navigation causes coalesce into one flush before the new match settles.

use vstd::prelude::*;

use crate::router::RouteMatch;
use crate::router::RouteTable;
use crate::router::first_leaf_from;
use crate::router::spec_split;

verus! {

broadcast use vstd::seq_lib::lemma_seq_contains_after_push;

/// An in-memory location provider, the shape tests substitute for the
/// ambient browser history: a current path, the navigation history, and
/// subscribed listeners by token.
#[derive(Debug)]
pub struct MemoryLocation {
    pub path: String,
    pub history: Vec<String>,
    pub listeners: Vec<u64>,
}

impl MemoryLocation {
    /// A provider standing at `initial`, with that one history entry.
    pub fn new(initial: String) -> (r: MemoryLocation)
        ensures
            r.path@ == initial@,
            r.history@.len() == 1,
            r.history@[0]@ == initial@,
            r.listeners@.len() == 0,
    {
        let mut history: Vec<String> = Vec::new();
        history.push(initial.clone());
        MemoryLocation { path: initial, history, listeners: Vec::new() }
    }

    /// The current path.
    pub fn current(&self) -> (r: String)
        ensures
            r@ == self.path@,
    {
        self.path.clone()
    }

    /// Navigate: the new path becomes current and a history entry is added.
    pub fn push(&mut self, target: String)
        ensures
            final(self).path@ == target@,
            final(self).history@ == old(self).history@.push(target),
            final(self).listeners == old(self).listeners,
    {
        self.history.push(target.clone());
        self.path = target;
    }

    /// Navigate replacing the current entry: no new history entry.
    pub fn replace(&mut self, target: String)
        ensures
            final(self).path@ == target@,
            final(self).history == old(self).history,
            final(self).listeners == old(self).listeners,
    {
        self.path = target;
    }

    /// Subscribe a listener by token.
    pub fn subscribe(&mut self, token: u64)
        ensures
            final(self).listeners@ == old(self).listeners@.push(token),
            final(self).path == old(self).path,
            final(self).history == old(self).history,
    {
        self.listeners.push(token);
    }

    /// Unsubscribe: the token is gone afterwards.
    pub fn unsubscribe(&mut self, token: u64)
        ensures
            forall|t: u64| #[trigger]
                final(self).listeners@.contains(t) <==> (old(self).listeners@.contains(t) && t
                    != token),
            final(self).path == old(self).path,
            final(self).history == old(self).history,
    {
        let n = self.listeners.len();
        let mut kept: Vec<u64> = Vec::new();
        let mut i: usize = 0;
        while i < n
            invariant
                i <= n,
                n == old(self).listeners@.len(),
                self.listeners == old(self).listeners,
                self.path == old(self).path,
                self.history == old(self).history,
                forall|t: u64| #[trigger]
                    kept@.contains(t) <==> (old(self).listeners@.take(i as int).contains(t) && t
                        != token),
            decreases n - i,
        {
            let t = self.listeners[i];
            proof {
                assert(old(self).listeners@.take(i as int + 1) == old(self).listeners@.take(
                    i as int,
                ).push(t));
            }
            if t != token {
                kept.push(t);
            }
            i += 1;
        }
        proof {
            assert(old(self).listeners@.take(n as int) == old(self).listeners@);
        }
        self.listeners = kept;
    }
}

/// The router's state: settled on a match, or navigating toward a target.
#[derive(Debug)]
pub enum NavState {
    Idle(RouteMatch),
    Navigating(String),
}

/// Begin a navigation: the state holds the target until the flush that
/// re-matches it completes.
pub fn start_navigation(target: String) -> (r: NavState)
    ensures
        r matches NavState::Navigating(t) && t@ == target@,
{
    NavState::Navigating(target)
}

/// Settle a navigation: match the target against the table and become
/// idle on the outcome; an idle state stays as it is.
pub fn settle_navigation(table: &RouteTable, st: NavState) -> (r: NavState)
    ensures
        st matches NavState::Navigating(t) ==> (r matches NavState::Idle(m) && match m {
            RouteMatch::Found { leaf, params: _, layouts: _ } => first_leaf_from(
                table@,
                spec_split(t@),
                0,
            ) == Some(leaf as int),
            RouteMatch::NotFound => first_leaf_from(table@, spec_split(t@), 0) is None,
        }),
        st is Idle ==> r == st,
{
    match st {
        NavState::Navigating(t) => NavState::Idle(table.match_url(t.as_str())),
        NavState::Idle(m) => NavState::Idle(m),
    }
}

} // verus!
