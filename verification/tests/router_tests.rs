use reactive_core::router::ParamKind;
use reactive_core::router::ParamValue;
use reactive_core::router::Pattern;
use reactive_core::router::RouteEntry;
use reactive_core::router::RouteMatch;
use reactive_core::router::RouteTable;
use reactive_core::router::match_pattern;
use reactive_core::router::parse_pattern;
use reactive_core::router::render_path;
use reactive_core::router::split_path;
use reactive_core::velem::VNode;
use reactive_core::velem::link_element;
use reactive_core::velem::should_intercept;

const NAV: u64 = 1;
const HOME: u64 = 2;
const BLOG: u64 = 3;

use reactive_core::router::Segment;

fn lit(s: &str) -> Segment {
    Segment::Lit(s.to_string())
}

fn int_param(name: &str) -> Segment {
    Segment::Param(name.to_string(), ParamKind::Int)
}

fn demo_table() -> RouteTable {
    RouteTable {
        entries: vec![
            RouteEntry::Layout(NAV),
            RouteEntry::Leaf(Pattern { segs: vec![] }, HOME),
            RouteEntry::Leaf(Pattern { segs: vec![lit("blog"), int_param("id")] }, BLOG),
            RouteEntry::EndLayout,
        ],
    }
}

#[test]
fn blog_with_integer_param_matches() {
    let t = demo_table();
    match t.match_url("/blog/42") {
        RouteMatch::Found { leaf, params, layouts } => {
            assert_eq!(leaf, 2);
            assert_eq!(params.len(), 1);
            assert_eq!(params[0].0, "id");
            assert_eq!(params[0].1, ParamValue::IntVal(42));
            assert_eq!(layouts, vec![0]);
        }
        RouteMatch::NotFound => panic!("expected a match"),
    }
}

#[test]
fn non_integer_segment_falls_through_to_not_found() {
    let t = demo_table();
    match t.match_url("/blog/abc") {
        RouteMatch::Found { .. } => panic!("/blog/abc must not match the integer route"),
        RouteMatch::NotFound => {}
    }
}

#[test]
fn negative_integer_param_matches() {
    let t = demo_table();
    match t.match_url("/blog/-7") {
        RouteMatch::Found { leaf, params, .. } => {
            assert_eq!(leaf, 2);
            assert_eq!(params[0].1, ParamValue::IntVal(-7));
        }
        RouteMatch::NotFound => panic!("expected a match"),
    }
}

#[test]
fn root_matches_home_inside_layout() {
    let t = demo_table();
    match t.match_url("/") {
        RouteMatch::Found { leaf, params, layouts } => {
            assert_eq!(leaf, 1);
            assert!(params.is_empty());
            assert_eq!(layouts, vec![0]);
        }
        RouteMatch::NotFound => panic!("expected the home match"),
    }
}

#[test]
fn trailing_slash_normalises_away() {
    let t = demo_table();
    match t.match_url("/blog/42/") {
        RouteMatch::Found { leaf, params, .. } => {
            assert_eq!(leaf, 2);
            assert_eq!(params[0].1, ParamValue::IntVal(42));
        }
        RouteMatch::NotFound => panic!("expected a match"),
    }
}

#[test]
fn first_declared_leaf_wins() {
    let t = RouteTable {
        entries: vec![
            RouteEntry::Leaf(Pattern { segs: vec![lit("a")] }, 10),
            RouteEntry::Leaf(Pattern { segs: vec![lit("a")] }, 11),
        ],
    };
    match t.match_url("/a") {
        RouteMatch::Found { leaf, .. } => assert_eq!(leaf, 0),
        RouteMatch::NotFound => panic!("expected a match"),
    }
}

#[test]
fn split_path_discards_empty_segments() {
    let parts = split_path("//a//b/");
    assert_eq!(parts, vec!["a".to_string(), "b".to_string()]);
    assert!(split_path("/").is_empty());
    assert!(split_path("").is_empty());
}

#[test]
fn render_path_builds_the_link_target() {
    let pat = Pattern { segs: vec![lit("blog"), int_param("id")] };
    let r = render_path(&pat, &vec![ParamValue::IntVal(2)]).expect("values fit");
    assert_eq!(r, "/blog/2");
    assert!(render_path(&pat, &vec![]).is_none());
    assert!(render_path(&pat, &vec![ParamValue::TextVal("x".to_string())]).is_none());
}

#[test]
fn link_round_trip_recovers_leaf_and_params() {
    let t = demo_table();
    let pat = Pattern { segs: vec![lit("blog"), int_param("id")] };
    let href = render_path(&pat, &vec![ParamValue::IntVal(-3)]).expect("values fit");
    match t.match_url(&href) {
        RouteMatch::Found { leaf, params, .. } => {
            assert_eq!(leaf, 2);
            assert_eq!(params[0].0, "id");
            assert_eq!(params[0].1, ParamValue::IntVal(-3));
        }
        RouteMatch::NotFound => panic!("rendered link must match again"),
    }
}

#[test]
fn link_element_carries_href_handler_and_label() {
    let pat = Pattern { segs: vec![lit("blog"), int_param("id")] };
    let node = link_element(&pat, &vec![ParamValue::IntVal(7)], 99, "Next".to_string())
        .expect("values fit");
    match node {
        VNode::Elem(e) => {
            assert_eq!(e.tag, "a");
            assert_eq!(e.attrs, vec![("href".to_string(), "/blog/7".to_string())]);
            assert_eq!(e.events, vec![("click".to_string(), 99)]);
            match &e.children[0] {
                VNode::Text(t) => assert_eq!(t, "Next"),
                _ => panic!("label child expected"),
            }
        }
        _ => panic!("anchor element expected"),
    }
}

#[test]
fn only_plain_primary_clicks_are_intercepted() {
    assert!(should_intercept(0, false, false, false, false));
    assert!(!should_intercept(1, false, false, false, false));
    assert!(!should_intercept(0, true, false, false, false));
    assert!(!should_intercept(0, false, false, false, true));
}

#[test]
fn pattern_matching_reports_bindings_in_order() {
    let pat = Pattern {
        segs: vec![lit("u"), int_param("a"), int_param("b")],
    };
    let parts = vec!["u".to_string(), "5".to_string(), "-6".to_string()];
    let vals = match_pattern(&pat, &parts).expect("pattern matches");
    assert_eq!(vals.len(), 2);
    assert_eq!(vals[0].0, "a");
    assert_eq!(vals[0].1, ParamValue::IntVal(5));
    assert_eq!(vals[1].0, "b");
    assert_eq!(vals[1].1, ParamValue::IntVal(-6));
}

#[test]
fn pattern_text_parses_literals_and_typed_params() {
    let p = parse_pattern("/blog/:id:int").expect("well-formed pattern");
    assert_eq!(p.segs.len(), 2);
    match &p.segs[0] {
        Segment::Lit(l) => assert_eq!(l, "blog"),
        _ => panic!("literal expected"),
    }
    match &p.segs[1] {
        Segment::Param(n, ParamKind::Int) => assert_eq!(n, "id"),
        _ => panic!("integer parameter expected"),
    }
    let p = parse_pattern("/a/:n:str/b").expect("well-formed pattern");
    assert_eq!(p.segs.len(), 3);
    match &p.segs[1] {
        Segment::Param(n, ParamKind::Text) => assert_eq!(n, "n"),
        _ => panic!("text parameter expected"),
    }
}

#[test]
fn unparseable_pattern_text_is_refused() {
    assert!(parse_pattern("/:id").is_err());
    assert!(parse_pattern("/::int").is_err());
    assert!(parse_pattern("/:id:float").is_err());
}

#[test]
fn parsed_pattern_matches_like_the_built_one() {
    let p = parse_pattern("/blog/:id:int").expect("well-formed pattern");
    let parts = vec!["blog".to_string(), "8".to_string()];
    let vals = match_pattern(&p, &parts).expect("matches");
    assert_eq!(vals[0].1, ParamValue::IntVal(8));
}
