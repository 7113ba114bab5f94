//! The virtual element model: the immutable tree a component evaluation
//! produces, which an external renderer diffs and patches.

use vstd::prelude::*;

use crate::router::Pattern;
use crate::router::ParamValue;
use crate::router::render_path;
use crate::router::spec_render_parts;
use crate::router::parts_of;
use crate::router::vals_fit;
use crate::value::Props;

verus! {

/// One node of the virtual tree. Event handlers are carried by identifier:
/// the renderer reuses a listener exactly when the identifier is unchanged.
#[derive(Debug)]
pub enum VNode {
    Text(String),
    Elem(Element),
    Fragment(Vec<VNode>),
    Comp(CompNode),
}

/// A concrete element: tag, attributes, event handlers, children.
#[derive(Debug)]
pub struct Element {
    pub tag: String,
    pub attrs: Vec<(String, String)>,
    pub events: Vec<(String, u64)>,
    pub children: Vec<VNode>,
}

/// A component placed in the tree: evaluated later, in its own scope.
#[derive(Debug)]
pub struct CompNode {
    pub comp: u64,
    pub key: Option<u64>,
    pub props: Props,
}

/// The reconciliation key of a node. Fragments are transparent to keying:
/// a fragment carries its first child's key upward.
pub open spec fn spec_key_of(n: VNode) -> Option<u64>
    decreases n,
{
    match n {
        VNode::Comp(c) => c.key,
        VNode::Fragment(cs) => if cs.len() > 0 {
            spec_key_of(cs[0])
        } else {
            None
        },
        _ => None,
    }
}

impl VNode {
    /// The key the runtime reconciles this node under.
    pub fn key_of(&self) -> (r: Option<u64>)
        ensures
            r == spec_key_of(*self),
        decreases *self,
    {
        match self {
            VNode::Comp(c) => c.key,
            VNode::Fragment(cs) => {
                if cs.len() > 0 {
                    cs[0].key_of()
                } else {
                    None
                }
            },
            _ => None,
        }
    }
}

/// Whether an activation is a plain primary-button click that navigation
/// should intercept; clicks with a modifier key, or with another button,
/// keep their native anchor behaviour (middle click, open in new tab).
pub fn should_intercept(button: u8, ctrl: bool, alt: bool, shift: bool, meta: bool) -> (r: bool)
    ensures
        r == (button == 0 && !ctrl && !alt && !shift && !meta),
{
    button == 0 && !ctrl && !alt && !shift && !meta
}

/// Build the `Link` element for a leaf pattern and parameter values: an
/// anchor whose `href` is the rendered path and whose activation handler is
/// attached under `handler`. `None` exactly when the values do not fit.
pub fn link_element(pat: &Pattern, vals: &Vec<ParamValue>, handler: u64, label: String) -> (r:
    Option<VNode>)
    ensures
        r is Some <==> vals_fit(pat@, vals.deep_view()),
        r matches Some(n) ==> (n matches VNode::Elem(e) && e.tag@ == "a"@ && e.attrs@.len() == 1
            && e.attrs@[0].0@ == "href"@ && e.attrs@[0].1@ == spec_render_parts(
            parts_of(pat@, vals.deep_view()),
        ) && e.events@.len() == 1 && e.events@[0].0@ == "click"@ && e.events@[0].1 == handler
            && e.children@.len() == 1 && (e.children@[0] matches VNode::Text(t) && t@ == label@)),
{
    match render_path(pat, vals) {
        Some(href) => {
            let mut attrs: Vec<(String, String)> = Vec::new();
            attrs.push((String::from_str("href"), href));
            let mut events: Vec<(String, u64)> = Vec::new();
            events.push((String::from_str("click"), handler));
            let mut children: Vec<VNode> = Vec::new();
            children.push(VNode::Text(label));
            Some(
                VNode::Elem(
                    Element { tag: String::from_str("a"), attrs, events, children },
                ),
            )
        },
        None => None,
    }
}

} // verus!
