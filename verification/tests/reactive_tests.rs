use reactive_core::reactive::Runtime;
use reactive_core::runtime::SlotAction;
use reactive_core::runtime::update_slot;
use reactive_core::value::PropValue;
use reactive_core::value::Props;
use reactive_core::value::Value;

const APP: u64 = 1;
const BLOG: u64 = 3;
const HOME: u64 = 2;

fn int_of(v: &Value) -> i64 {
    match v {
        Value::Int(i) => *i,
        _ => panic!("integer value expected"),
    }
}

/// Evaluate a scope whose body reads the given signals.
fn run_reading(rt: &mut Runtime, scope: usize, signals: &[usize]) {
    rt.begin_run(scope);
    for g in signals {
        rt.read(*g);
    }
    rt.end_run();
}

#[test]
fn counter_clicks_flush_once_each() {
    let mut rt = Runtime::new();
    let root = rt.create_scope(None, APP, None, Props::empty());
    let count = rt.create_signal(Value::Int(0));
    run_reading(&mut rt, root, &[count]);
    let mut displayed = vec![int_of(&rt.read(count))];

    // +1, +1, reset, -1 — each click writes and the flush re-evaluates.
    for target in [1i64, 2, 0, -1] {
        let (changed, _) = rt.write(count, Value::Int(target));
        assert!(changed);
        let plan = rt.take_flush_plan();
        assert_eq!(plan, vec![root]);
        run_reading(&mut rt, root, &[count]);
        displayed.push(int_of(&rt.read(count)));
    }
    assert_eq!(displayed, vec![0, 1, 2, 0, -1]);
    assert_eq!(rt.flushes, 4);
}

#[test]
fn equal_write_marks_nothing_dirty() {
    let mut rt = Runtime::new();
    let root = rt.create_scope(None, APP, None, Props::empty());
    let s = rt.create_signal(Value::Int(5));
    run_reading(&mut rt, root, &[s]);
    let (changed, _) = rt.write(s, Value::Int(5));
    assert!(!changed);
    assert!(!rt.scopes[root].dirty);
    assert!(rt.queue.is_empty());
    assert!(!rt.flush_pending);
}

#[test]
fn coalesced_writes_evaluate_the_scope_once() {
    let mut rt = Runtime::new();
    let root = rt.create_scope(None, APP, None, Props::empty());
    let a = rt.create_signal(Value::Int(1));
    let b = rt.create_signal(Value::Int(2));
    let c = rt.create_signal(Value::Int(3));
    run_reading(&mut rt, root, &[a, b, c]);
    rt.write(a, Value::Int(10));
    rt.write(b, Value::Int(20));
    rt.write(c, Value::Int(30));
    let plan = rt.take_flush_plan();
    assert_eq!(plan, vec![root]);
    assert_eq!(rt.flushes, 1);
}

#[test]
fn child_with_dirty_parent_is_skipped_in_the_plan() {
    let mut rt = Runtime::new();
    let parent = rt.create_scope(None, APP, None, Props::empty());
    let child = rt.create_scope(Some(parent), HOME, None, Props::empty());
    let s = rt.create_signal(Value::Int(0));
    run_reading(&mut rt, parent, &[s]);
    run_reading(&mut rt, child, &[s]);
    rt.write(s, Value::Int(1));
    let plan = rt.take_flush_plan();
    assert_eq!(plan, vec![parent]);
    assert!(!rt.scopes[child].dirty);
}

#[test]
fn cleanups_run_in_reverse_registration_order() {
    let mut rt = Runtime::new();
    let root = rt.create_scope(None, APP, None, Props::empty());
    rt.register_cleanup(root, 101);
    rt.register_cleanup(root, 102);
    rt.dispose(root);
    assert_eq!(rt.cleanup_log, vec![102, 101]);
    assert!(!rt.scopes[root].alive);
}

#[test]
fn disposal_leaves_no_dangling_dependents() {
    let mut rt = Runtime::new();
    let root = rt.create_scope(None, APP, None, Props::empty());
    let child = rt.create_scope(Some(root), BLOG, None, Props::empty());
    let s = rt.create_signal(Value::Int(0));
    run_reading(&mut rt, root, &[s]);
    run_reading(&mut rt, child, &[s]);
    assert_eq!(rt.signals[s].dependents.len(), 2);
    rt.dispose(root);
    for cell in &rt.signals {
        assert!(cell.dependents.is_empty());
    }
    for scope in &rt.scopes {
        assert!(!scope.alive);
    }
}

#[test]
fn disposing_a_subtree_spares_the_rest() {
    let mut rt = Runtime::new();
    let root = rt.create_scope(None, APP, None, Props::empty());
    let home = rt.create_scope(Some(root), HOME, None, Props::empty());
    let blog = rt.create_scope(Some(root), BLOG, None, Props::empty());
    let s = rt.create_signal(Value::Int(0));
    run_reading(&mut rt, root, &[s]);
    run_reading(&mut rt, home, &[s]);
    run_reading(&mut rt, blog, &[s]);
    rt.dispose(home);
    assert!(rt.scopes[root].alive);
    assert!(!rt.scopes[home].alive);
    assert!(rt.scopes[blog].alive);
    assert_eq!(rt.signals[s].dependents.len(), 2);
}

#[test]
fn signal_owned_by_a_scope_dies_with_it() {
    let mut rt = Runtime::new();
    let root = rt.create_scope(None, APP, None, Props::empty());
    rt.begin_run(root);
    let owned = rt.create_signal(Value::Int(7));
    rt.read(owned);
    rt.end_run();
    assert!(rt.signals[owned].alive);
    rt.dispose(root);
    assert!(!rt.signals[owned].alive);
}

#[test]
fn dependencies_reset_on_each_evaluation() {
    let mut rt = Runtime::new();
    let root = rt.create_scope(None, APP, None, Props::empty());
    let s = rt.create_signal(Value::Int(0));
    run_reading(&mut rt, root, &[s]);
    assert_eq!(rt.signals[s].dependents, vec![root]);
    // The next evaluation reads nothing: the link must be gone.
    run_reading(&mut rt, root, &[]);
    assert!(rt.signals[s].dependents.is_empty());
    let (changed, _) = rt.write(s, Value::Int(9));
    assert!(changed);
    assert!(rt.take_flush_plan().is_empty());
}

#[test]
fn self_write_is_detected_and_deferred() {
    let mut rt = Runtime::new();
    let root = rt.create_scope(None, APP, None, Props::empty());
    let s = rt.create_signal(Value::Int(0));
    rt.begin_run(root);
    rt.read(s);
    let (changed, self_write) = rt.write(s, Value::Int(1));
    assert!(changed);
    assert!(self_write);
    rt.end_run();
    // The scope stays dirty: the deferred write re-runs it next flush.
    assert!(rt.scopes[root].dirty);
    assert_eq!(rt.take_flush_plan(), vec![root]);
}

#[test]
fn slot_reuse_follows_component_key_and_props() {
    let mut rt = Runtime::new();
    let root = rt.create_scope(None, APP, None, Props::empty());

    let blog_props_1 = Props { fields: vec![PropValue::Val(Value::Int(1))] };
    let (blog, action) = update_slot(&mut rt, Some(root), None, BLOG, None, blog_props_1);
    assert_eq!(action, SlotAction::Created);

    // Same component, same props: reused untouched.
    let same = Props { fields: vec![PropValue::Val(Value::Int(1))] };
    let (blog2, action) = update_slot(&mut rt, Some(root), Some(blog), BLOG, None, same);
    assert_eq!(action, SlotAction::Reused);
    assert_eq!(blog2, blog);
    assert!(!rt.scopes[blog].dirty);

    // Same component, new id prop: reused, dirtied, one flush pending.
    let next = Props { fields: vec![PropValue::Val(Value::Int(2))] };
    let (blog3, action) = update_slot(&mut rt, Some(root), Some(blog), BLOG, None, next);
    assert_eq!(action, SlotAction::ReusedDirty);
    assert_eq!(blog3, blog);
    assert_eq!(rt.take_flush_plan(), vec![blog]);

    // A different component at the slot: the old scope goes, a new one comes.
    let (home, action) = update_slot(&mut rt, Some(root), Some(blog), HOME, None, Props::empty());
    assert_eq!(action, SlotAction::Replaced);
    assert!(!rt.scopes[blog].alive);
    assert!(rt.scopes[home].alive);
}

#[test]
fn signal_handle_props_compare_by_identity() {
    let a = PropValue::SignalRef(4);
    let b = PropValue::SignalRef(4);
    let c = PropValue::SignalRef(5);
    assert!(a.eq_prop(&b));
    assert!(!a.eq_prop(&c));
    let p1 = Props { fields: vec![a] };
    let p2 = Props { fields: vec![b] };
    assert!(p1.eq_props(&p2));
}

#[test]
fn navigating_between_routes_spares_the_shared_layout() {
    // From the home route to a blog route: the navbar layout's scope is
    // reused untouched, the old leaf's scope is disposed with its subtree,
    // and the new leaf mounts fresh.
    let mut rt = Runtime::new();
    let (nav, action) = update_slot(&mut rt, None, None, APP, None, Props::empty());
    assert_eq!(action, SlotAction::Created);
    let (home_scope, action) = update_slot(&mut rt, Some(nav), None, HOME, None, Props::empty());
    assert_eq!(action, SlotAction::Created);

    // The navbar re-evaluates with unchanged props: reused, not dirtied.
    let (nav2, action) = update_slot(&mut rt, None, Some(nav), APP, None, Props::empty());
    assert_eq!(action, SlotAction::Reused);
    assert_eq!(nav2, nav);

    // The leaf slot switches component: Home goes, Blog comes.
    let blog_props = Props { fields: vec![PropValue::Val(Value::Int(1))] };
    let (blog_scope, action) = update_slot(&mut rt, Some(nav), Some(home_scope), BLOG, None, blog_props);
    assert_eq!(action, SlotAction::Replaced);
    assert!(!rt.scopes[home_scope].alive);
    assert!(rt.scopes[blog_scope].alive);
    assert!(rt.scopes[nav].alive);
}

#[test]
fn route_change_runs_the_leaving_leaf_cleanup() {
    // A blog leaf registers an effect cleanup; replacing it with the home
    // leaf runs that cleanup as part of the disposal, before anything of
    // the new scope happens.
    let mut rt = Runtime::new();
    let nav = rt.create_scope(None, APP, None, Props::empty());
    let (blog, _) = update_slot(&mut rt, Some(nav), None, BLOG, None, Props::empty());
    rt.register_cleanup(blog, 77);
    assert!(rt.cleanup_log.is_empty());
    let (home, action) = update_slot(&mut rt, Some(nav), Some(blog), HOME, None, Props::empty());
    assert_eq!(action, SlotAction::Replaced);
    assert_eq!(rt.cleanup_log, vec![77]);
    assert!(rt.scopes[home].alive);
}
