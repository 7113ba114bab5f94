use reactive_core::nav::MemoryLocation;
use reactive_core::nav::NavState;
use reactive_core::nav::settle_navigation;
use reactive_core::nav::start_navigation;
use reactive_core::router::ParamKind;
use reactive_core::router::ParamValue;
use reactive_core::router::Pattern;
use reactive_core::router::RouteEntry;
use reactive_core::router::RouteMatch;
use reactive_core::router::RouteTable;
use reactive_core::router::Segment;

fn demo_table() -> RouteTable {
    RouteTable {
        entries: vec![
            RouteEntry::Layout(1),
            RouteEntry::Leaf(Pattern { segs: vec![] }, 2),
            RouteEntry::Leaf(
                Pattern {
                    segs: vec![
                        Segment::Lit("blog".to_string()),
                        Segment::Param("id".to_string(), ParamKind::Int),
                    ],
                },
                3,
            ),
            RouteEntry::EndLayout,
        ],
    }
}

#[test]
fn memory_location_tracks_history() {
    let mut loc = MemoryLocation::new("/".to_string());
    assert_eq!(loc.current(), "/");
    loc.push("/blog/1".to_string());
    assert_eq!(loc.current(), "/blog/1");
    loc.replace("/blog/2".to_string());
    assert_eq!(loc.current(), "/blog/2");
    assert_eq!(loc.history, vec!["/".to_string(), "/blog/1".to_string()]);
}

#[test]
fn subscribe_and_unsubscribe_listeners() {
    let mut loc = MemoryLocation::new("/".to_string());
    loc.subscribe(7);
    loc.subscribe(8);
    loc.unsubscribe(7);
    assert_eq!(loc.listeners, vec![8]);
}

#[test]
fn navigation_settles_on_the_new_match() {
    let t = demo_table();
    let st = start_navigation("/blog/5".to_string());
    match settle_navigation(&t, st) {
        NavState::Idle(RouteMatch::Found { leaf, params, .. }) => {
            assert_eq!(leaf, 2);
            assert_eq!(params[0].1, ParamValue::IntVal(5));
        }
        _ => panic!("expected an idle state on the blog match"),
    }
}

#[test]
fn navigation_to_an_unknown_path_settles_not_found() {
    let t = demo_table();
    let st = start_navigation("/nowhere".to_string());
    match settle_navigation(&t, st) {
        NavState::Idle(RouteMatch::NotFound) => {}
        _ => panic!("expected not-found"),
    }
}
