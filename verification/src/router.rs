//! The router: a declarative, ordered route table with typed path
//! parameters and nested layouts, matched against a URL path.
//!
//! Matching is deterministic: the first leaf, in declaration order, whose
//! pattern unifies with the path segments wins. An integer parameter
//! unifies only with a well-formed decimal integer (optional leading `-`);
//! a text parameter unifies with any segment. When no leaf unifies the
//! outcome is the distinguished `NotFound` — never an error.

use vstd::prelude::*;

use crate::decimal::spec_parse_int;
use crate::decimal::parse_int;

verus! {

broadcast use vstd::seq_lib::lemma_seq_contains_after_push;

/// The type a path parameter is parsed under.
#[derive(Clone, Copy, Debug, PartialEq, Eq, Structural)]
pub enum ParamKind {
    Int,
    Text,
}

/// One slash-delimited piece of a pattern.
#[derive(Clone, Debug)]
pub enum Segment {
    Lit(String),
    Param(String, ParamKind),
}

/// The mathematical shape of a [`Segment`].
pub enum SegModel {
    Lit(Seq<char>),
    Param(Seq<char>, ParamKind),
}

impl View for Segment {
    type V = SegModel;

    open spec fn view(&self) -> SegModel {
        match self {
            Segment::Lit(l) => SegModel::Lit(l@),
            Segment::Param(n, k) => SegModel::Param(n@, *k),
        }
    }
}

impl DeepView for Segment {
    type V = SegModel;

    open spec fn deep_view(&self) -> SegModel {
        self.view()
    }
}

/// A well-formed segment: a literal is nonempty and holds no `/`; a
/// parameter has a nonempty name.
pub open spec fn seg_ok(s: SegModel) -> bool {
    match s {
        SegModel::Lit(l) => l.len() > 0 && forall|i: int| 0 <= i < l.len() ==> #[trigger] l[i]
            != '/',
        SegModel::Param(n, _) => n.len() > 0,
    }
}

/// A slash-delimited pattern.
#[derive(Clone, Debug)]
pub struct Pattern {
    pub segs: Vec<Segment>,
}

impl View for Pattern {
    type V = Seq<SegModel>;

    open spec fn view(&self) -> Seq<SegModel> {
        self.segs.deep_view()
    }
}

pub open spec fn pattern_ok(p: Seq<SegModel>) -> bool {
    forall|i: int| 0 <= i < p.len() ==> seg_ok(#[trigger] p[i])
}

/// A typed value bound to a path parameter.
#[derive(Clone, Debug, PartialEq)]
pub enum ParamValue {
    IntVal(i64),
    TextVal(String),
}

/// The mathematical shape of a [`ParamValue`].
pub enum ParamValueModel {
    IntVal(int),
    TextVal(Seq<char>),
}

impl View for ParamValue {
    type V = ParamValueModel;

    open spec fn view(&self) -> ParamValueModel {
        match self {
            ParamValue::IntVal(v) => ParamValueModel::IntVal(*v as int),
            ParamValue::TextVal(t) => ParamValueModel::TextVal(t@),
        }
    }
}

impl DeepView for ParamValue {
    type V = ParamValueModel;

    open spec fn deep_view(&self) -> ParamValueModel {
        self.view()
    }
}

/// Whether one pattern segment unifies with one path segment.
pub open spec fn seg_matches(seg: SegModel, part: Seq<char>) -> bool {
    match seg {
        SegModel::Lit(l) => l == part,
        SegModel::Param(_, ParamKind::Int) => spec_parse_int(part) is Some,
        SegModel::Param(_, ParamKind::Text) => true,
    }
}

/// Whether a whole pattern unifies with a whole split path.
pub open spec fn parts_match(p: Seq<SegModel>, parts: Seq<Seq<char>>) -> bool {
    p.len() == parts.len() && forall|i: int|
        0 <= i < p.len() ==> seg_matches(#[trigger] p[i], parts[i])
}

/// The typed value a parameter segment binds against a path segment.
pub open spec fn binding_of(seg: SegModel, part: Seq<char>) -> ParamValueModel {
    match seg {
        SegModel::Param(_, ParamKind::Int) => ParamValueModel::IntVal(
            spec_parse_int(part).unwrap() as int,
        ),
        _ => ParamValueModel::TextVal(part),
    }
}

/// The bindings a match produces: one `(name, value)` per parameter
/// segment, in pattern order.
pub open spec fn bindings(p: Seq<SegModel>, parts: Seq<Seq<char>>) -> Seq<
    (Seq<char>, ParamValueModel),
>
    decreases p.len(),
{
    if p.len() == 0 {
        Seq::empty()
    } else {
        let rest = bindings(p.drop_first(), parts.drop_first());
        match p[0] {
            SegModel::Param(n, _) => seq![(n, binding_of(p[0], parts[0]))] + rest,
            SegModel::Lit(_) => rest,
        }
    }
}

/// One entry of the route declaration list. Components are referred to by
/// identifier; a `Layout` wraps all entries up to its `EndLayout`.
#[derive(Clone, Debug)]
pub enum RouteEntry {
    Layout(u64),
    Leaf(Pattern, u64),
    EndLayout,
}

/// The mathematical shape of a [`RouteEntry`].
pub enum EntryModel {
    Layout(u64),
    Leaf(Seq<SegModel>, u64),
    EndLayout,
}

impl View for RouteEntry {
    type V = EntryModel;

    open spec fn view(&self) -> EntryModel {
        match self {
            RouteEntry::Layout(c) => EntryModel::Layout(*c),
            RouteEntry::Leaf(p, c) => EntryModel::Leaf(p@, *c),
            RouteEntry::EndLayout => EntryModel::EndLayout,
        }
    }
}

impl DeepView for RouteEntry {
    type V = EntryModel;

    open spec fn deep_view(&self) -> EntryModel {
        self.view()
    }
}

/// An ordered route table.
#[derive(Clone, Debug)]
pub struct RouteTable {
    pub entries: Vec<RouteEntry>,
}

impl View for RouteTable {
    type V = Seq<EntryModel>;

    open spec fn view(&self) -> Seq<EntryModel> {
        self.entries.deep_view()
    }
}

/// The first leaf at or after `i`, in declaration order, whose pattern
/// unifies with the split path. Declaration order is the tie-breaker.
pub open spec fn first_leaf_from(t: Seq<EntryModel>, parts: Seq<Seq<char>>, i: int) -> Option<int>
    decreases t.len() - i,
{
    if i < 0 || i >= t.len() {
        None
    } else {
        match t[i] {
            EntryModel::Leaf(p, _) => if parts_match(p, parts) {
                Some(i)
            } else {
                first_leaf_from(t, parts, i + 1)
            },
            _ => first_leaf_from(t, parts, i + 1),
        }
    }
}

/// The stack of layout entries open just before entry `upto`, outermost
/// first.
pub open spec fn layout_stack(t: Seq<EntryModel>, upto: int) -> Seq<usize>
    decreases upto,
{
    if upto <= 0 {
        Seq::empty()
    } else {
        let prev = layout_stack(t, upto - 1);
        match t[upto - 1] {
            EntryModel::Layout(_) => prev.push((upto - 1) as usize),
            EntryModel::EndLayout => if prev.len() > 0 {
                prev.drop_last()
            } else {
                prev
            },
            EntryModel::Leaf(_, _) => prev,
        }
    }
}

/// The router's decision for one URL.
#[derive(Clone, Debug)]
pub enum RouteMatch {
    /// The winning leaf, its typed parameter bindings in pattern order, and
    /// the chain of enclosing layouts, outermost first.
    Found { leaf: usize, params: Vec<(String, ParamValue)>, layouts: Vec<usize> },
    /// No leaf unifies; a well-known outcome, not an error.
    NotFound,
}

/// The bindings a found match carries, as a mathematical sequence.
pub open spec fn params_view(params: Seq<(String, ParamValue)>) -> Seq<(Seq<char>, ParamValueModel)> {
    params.map_values(|pv: (String, ParamValue)| (pv.0@, pv.1@))
}

impl RouteTable {
    /// Match a split URL path against the table: the first unifying leaf
    /// wins, with its typed bindings and enclosing layout chain; when no
    /// leaf unifies the outcome is `NotFound`.
    pub fn match_parts(&self, parts: &Vec<String>) -> (r: RouteMatch)
        ensures
            match r {
                RouteMatch::Found { leaf, params, layouts } => {
                    &&& first_leaf_from(self@, parts.deep_view(), 0) == Some(leaf as int)
                    &&& leaf < self@.len()
                    &&& (self@[leaf as int] matches EntryModel::Leaf(p, _) && params_view(params@)
                        == bindings(p, parts.deep_view()))
                    &&& layouts@ =~= layout_stack(self@, leaf as int)
                },
                RouteMatch::NotFound => first_leaf_from(self@, parts.deep_view(), 0) is None,
            },
    {
        let n = self.entries.len();
        let mut stack: Vec<usize> = Vec::new();
        let mut i: usize = 0;
        while i < n
            invariant
                n == self@.len(),
                i <= n,
                n == self.entries@.len(),
                parts.deep_view() == parts.deep_view(),
                first_leaf_from(self@, parts.deep_view(), 0) == first_leaf_from(
                    self@,
                    parts.deep_view(),
                    i as int,
                ),
                stack@ =~= layout_stack(self@, i as int),
                forall|k: int| 0 <= k < stack@.len() ==> #[trigger] stack@[k] < i,
            decreases n - i,
        {
            proof {
                assert(self@[i as int] == self.entries@[i as int].deep_view());
            }
            match &self.entries[i] {
                RouteEntry::Leaf(pat, _comp) => {
                    if let Some(vals) = match_pattern(pat, parts) {
                        proof {
                            assert(parts_match(pat@, parts.deep_view()));
                            assert(first_leaf_from(self@, parts.deep_view(), i as int) == Some(
                                i as int,
                            ));
                        }
                        return RouteMatch::Found { leaf: i, params: vals, layouts: stack };
                    }
                    proof {
                        assert(!parts_match(pat@, parts.deep_view()));
                        assert(layout_stack(self@, i as int + 1) == layout_stack(
                            self@,
                            i as int,
                        ));
                    }
                },
                RouteEntry::Layout(_c) => {
                    stack.push(i);
                    proof {
                        assert(layout_stack(self@, i as int + 1) == layout_stack(
                            self@,
                            i as int,
                        ).push(i));
                        assert(stack@ =~= layout_stack(self@, i as int + 1));
                    }
                },
                RouteEntry::EndLayout => {
                    if stack.len() > 0 {
                        stack.pop();
                    }
                    proof {
                        if layout_stack(self@, i as int).len() > 0 {
                            assert(layout_stack(self@, i as int + 1) == layout_stack(
                                self@,
                                i as int,
                            ).drop_last());
                        }
                        assert(stack@ =~= layout_stack(self@, i as int + 1));
                    }
                },
            }
            i += 1;
        }
        RouteMatch::NotFound
    }

    /// Match a URL path: split it on `/` (empty segments, as from a
    /// trailing slash, normalise away) and take the first unifying leaf.
    pub fn match_url(&self, path: &str) -> (r: RouteMatch)
        ensures
            match r {
                RouteMatch::Found { leaf, params, layouts } => {
                    &&& first_leaf_from(self@, spec_split(path@), 0) == Some(leaf as int)
                    &&& leaf < self@.len()
                    &&& (self@[leaf as int] matches EntryModel::Leaf(p, _) && params_view(params@)
                        == bindings(p, spec_split(path@)))
                    &&& layouts@ =~= layout_stack(self@, leaf as int)
                },
                RouteMatch::NotFound => first_leaf_from(self@, spec_split(path@), 0) is None,
            },
    {
        let parts = split_path(path);
        self.match_parts(&parts)
    }
}

/// Try to unify one pattern with the split path; `Some` carries the typed
/// bindings, in pattern order, exactly when the pattern matches.
pub fn match_pattern(pat: &Pattern, parts: &Vec<String>) -> (r: Option<Vec<(String, ParamValue)>>)
    ensures
        r is Some <==> parts_match(pat@, parts.deep_view()),
        r matches Some(vals) ==> params_view(vals@) == bindings(pat@, parts.deep_view()),
{
    let np = pat.segs.len();
    if np != parts.len() {
        return None;
    }
    let mut out: Vec<(String, ParamValue)> = Vec::new();
    let mut i: usize = 0;
    while i < np
        invariant
            np == pat@.len(),
            np == parts.deep_view().len(),
            np == pat.segs@.len(),
            np == parts@.len(),
            i <= np,
            forall|j: int| 0 <= j < i ==> seg_matches(#[trigger] pat@[j], parts.deep_view()[j]),
            params_view(out@) =~= bindings(
                pat@.take(i as int),
                parts.deep_view().take(i as int),
            ),
        decreases np - i,
    {
        proof {
            assert(pat@[i as int] == pat.segs@[i as int].deep_view());
            assert(parts.deep_view()[i as int] == parts@[i as int]@);
        }
        let ghost pre_out = out@;
        match &pat.segs[i] {
            Segment::Lit(l) => {
                if !String::eq(l, &parts[i]) {
                    proof {
                        assert(!seg_matches(pat@[i as int], parts.deep_view()[i as int]));
                    }
                    return None;
                }
            },
            Segment::Param(name, ParamKind::Int) => {
                match parse_int(parts[i].as_str()) {
                    Some(v) => {
                        out.push((name.clone(), ParamValue::IntVal(v)));
                    },
                    None => {
                        proof {
                            assert(!seg_matches(pat@[i as int], parts.deep_view()[i as int]));
                        }
                        return None;
                    },
                }
            },
            Segment::Param(name, ParamKind::Text) => {
                let t = parts[i].clone();
                out.push((name.clone(), ParamValue::TextVal(t)));
            },
        }
        proof {
            lemma_bindings_take_step(pat@, parts.deep_view(), i as int);
            assert(params_view(out@) =~= bindings(
                pat@.take(i as int + 1),
                parts.deep_view().take(i as int + 1),
            )) by {
                assert(params_view(out@).len() == out@.len());
                assert(forall|j: int|
                    0 <= j < pre_out.len() ==> #[trigger] out@[j] == pre_out[j]);
            }
        }
        i += 1;
    }
    proof {
        assert(pat@.take(np as int) =~= pat@);
        assert(parts.deep_view().take(np as int) =~= parts.deep_view());
    }
    Some(out)
}

/// Unfolding step: the bindings of a one-longer prefix.
pub proof fn lemma_bindings_take_step(p: Seq<SegModel>, parts: Seq<Seq<char>>, i: int)
    requires
        0 <= i < p.len(),
        p.len() == parts.len(),
    ensures
        bindings(p.take(i + 1), parts.take(i + 1)) == bindings(p.take(i), parts.take(i)) + (
        match p[i] {
            SegModel::Param(n, _) => seq![(n, binding_of(p[i], parts[i]))],
            SegModel::Lit(_) => Seq::empty(),
        }),
    decreases i,
{
    lemma_bindings_snoc(p.take(i + 1), parts.take(i + 1));
    assert(p.take(i + 1).drop_last() =~= p.take(i));
    assert(parts.take(i + 1).drop_last() =~= parts.take(i));
    assert(p.take(i + 1).last() == p[i]);
    assert(parts.take(i + 1).last() == parts[i]);
}

/// The bindings of a sequence with its last segment split off.
pub proof fn lemma_bindings_snoc(p: Seq<SegModel>, parts: Seq<Seq<char>>)
    requires
        p.len() >= 1,
        p.len() == parts.len(),
    ensures
        bindings(p, parts) == bindings(p.drop_last(), parts.drop_last()) + (match p.last() {
            SegModel::Param(n, _) => seq![(n, binding_of(p.last(), parts.last()))],
            SegModel::Lit(_) => Seq::empty(),
        }),
    decreases p.len(),
{
    if p.len() == 1 {
        assert(bindings(p.drop_first(), parts.drop_first()) == Seq::<(
            Seq<char>,
            ParamValueModel,
        )>::empty());
        assert(p.drop_last().len() == 0);
        assert(bindings(p.drop_last(), parts.drop_last()) == Seq::<(
            Seq<char>,
            ParamValueModel,
        )>::empty());
        match p[0] {
            SegModel::Param(n, _) => {
                assert(bindings(p, parts) =~= seq![(n, binding_of(p[0], parts[0]))]);
                assert(bindings(p.drop_last(), parts.drop_last()) + seq![
                    (n, binding_of(p.last(), parts.last())),
                ] =~= seq![(n, binding_of(p[0], parts[0]))]);
            },
            SegModel::Lit(_) => {
                assert(bindings(p, parts) =~= Seq::<(Seq<char>, ParamValueModel)>::empty());
            },
        }
    } else {
        lemma_bindings_snoc(p.drop_first(), parts.drop_first());
        assert(p.drop_first().drop_last() =~= p.drop_last().drop_first());
        assert(parts.drop_first().drop_last() =~= parts.drop_last().drop_first());
        assert(p.drop_first().last() == p.last());
        assert(parts.drop_first().last() == parts.last());
        assert(p.drop_last()[0] == p[0]);
        assert(parts.drop_last()[0] == parts[0]);
        let tailbind = match p.last() {
            SegModel::Param(n, _) => seq![(n, binding_of(p.last(), parts.last()))],
            SegModel::Lit(_) => Seq::<(Seq<char>, ParamValueModel)>::empty(),
        };
        assert(bindings(p.drop_first(), parts.drop_first()) == bindings(
            p.drop_last().drop_first(),
            parts.drop_last().drop_first(),
        ) + tailbind);
        match p[0] {
            SegModel::Param(n0, _) => {
                assert(bindings(p, parts) == seq![(n0, binding_of(p[0], parts[0]))] + bindings(
                    p.drop_first(),
                    parts.drop_first(),
                ));
                assert(bindings(p.drop_last(), parts.drop_last()) == seq![
                    (n0, binding_of(p[0], parts[0])),
                ] + bindings(p.drop_last().drop_first(), parts.drop_last().drop_first()));
                assert(bindings(p, parts) =~= bindings(p.drop_last(), parts.drop_last())
                    + tailbind);
            },
            SegModel::Lit(_) => {
                assert(bindings(p, parts) == bindings(p.drop_first(), parts.drop_first()));
                assert(bindings(p.drop_last(), parts.drop_last()) == bindings(
                    p.drop_last().drop_first(),
                    parts.drop_last().drop_first(),
                ));
                assert(bindings(p, parts) =~= bindings(p.drop_last(), parts.drop_last())
                    + tailbind);
            },
        }
    }
}

/// Law: matching is deterministic and first-match. Whatever a match
/// returns, every earlier leaf fails to unify, and the winner unifies.
pub proof fn lemma_first_match(t: Seq<EntryModel>, parts: Seq<Seq<char>>, leaf: int)
    requires
        first_leaf_from(t, parts, 0) == Some(leaf),
    ensures
        0 <= leaf < t.len(),
        t[leaf] matches EntryModel::Leaf(p, _) && parts_match(p, parts),
        forall|j: int|
            0 <= j < leaf ==> match #[trigger] t[j] {
                EntryModel::Leaf(p, _) => !parts_match(p, parts),
                _ => true,
            },
{
    lemma_first_leaf_minimal(t, parts, 0, leaf);
}

proof fn lemma_first_leaf_minimal(t: Seq<EntryModel>, parts: Seq<Seq<char>>, i: int, leaf: int)
    requires
        0 <= i,
        first_leaf_from(t, parts, i) == Some(leaf),
    ensures
        i <= leaf < t.len(),
        t[leaf] matches EntryModel::Leaf(p, _) && parts_match(p, parts),
        forall|j: int|
            i <= j < leaf ==> match #[trigger] t[j] {
                EntryModel::Leaf(p, _) => !parts_match(p, parts),
                _ => true,
            },
    decreases t.len() - i,
{
    if i < t.len() {
        match t[i] {
            EntryModel::Leaf(p, _) => {
                if !parts_match(p, parts) {
                    lemma_first_leaf_minimal(t, parts, i + 1, leaf);
                }
            },
            _ => {
                lemma_first_leaf_minimal(t, parts, i + 1, leaf);
            },
        }
    }
}

/// Splitting a path on `/`, discarding empty segments; a trailing or
/// doubled slash thus normalises away.
pub open spec fn spec_split(s: Seq<char>) -> Seq<Seq<char>>
    decreases s.len(),
{
    if s.len() == 0 {
        Seq::empty()
    } else if s[0] == '/' {
        spec_split(s.drop_first())
    } else {
        let rest = spec_split(s.drop_first());
        if s.len() > 1 && s[1] != '/' {
            seq![seq![s[0]] + rest[0]] + rest.drop_first()
        } else {
            seq![seq![s[0]]] + rest
        }
    }
}

/// A nonempty slash-free segment followed by a boundary splits off whole.
pub proof fn lemma_split_prefix(p: Seq<char>, rest: Seq<char>)
    requires
        p.len() > 0,
        forall|i: int| 0 <= i < p.len() ==> #[trigger] p[i] != '/',
        rest.len() == 0 || rest[0] == '/',
    ensures
        spec_split(p + rest) == seq![p] + spec_split(rest),
    decreases p.len(),
{
    let s = p + rest;
    assert(s[0] == p[0]);
    if p.len() == 1 {
        if rest.len() == 0 {
            assert(s.len() == 1);
            assert(s.drop_first() =~= rest);
            assert(spec_split(s) == seq![seq![s[0]]] + spec_split(s.drop_first()));
            assert(seq![s[0]] =~= p);
            assert(spec_split(s) =~= seq![p] + spec_split(rest));
        } else {
            assert(s.len() > 1 && s[1] == rest[0]);
            assert(s.drop_first() =~= rest);
            assert(spec_split(s) == seq![seq![s[0]]] + spec_split(rest));
            assert(seq![s[0]] =~= p);
            assert(spec_split(s) =~= seq![p] + spec_split(rest));
        }
    } else {
        assert(s.len() > 1);
        assert(s[1] == p[1]);
        assert(p[1] != '/');
        assert(s.drop_first() =~= p.drop_first() + rest);
        assert(forall|i: int|
            0 <= i < p.drop_first().len() ==> #[trigger] p.drop_first()[i] == p[i + 1]);
        lemma_split_prefix(p.drop_first(), rest);
        let sub = spec_split(p.drop_first() + rest);
        assert(sub == seq![p.drop_first()] + spec_split(rest));
        assert(sub.len() > 0);
        assert(sub[0] == p.drop_first());
        assert(spec_split(s) == seq![seq![s[0]] + sub[0]] + sub.drop_first());
        assert(seq![s[0]] + p.drop_first() =~= p);
        assert(sub.drop_first() =~= spec_split(rest));
        assert(spec_split(s) =~= seq![p] + spec_split(rest));
    }
}

/// Split a URL path into its nonempty segments.
pub fn split_path(s: &str) -> (r: Vec<String>)
    ensures
        r.deep_view() == spec_split(s@),
{
    let len = s.unicode_len();
    let mut out: Vec<String> = Vec::new();
    let mut i: usize = 0;
    proof {
        assert(s@.skip(0) =~= s@);
        assert(out.deep_view() =~= Seq::<Seq<char>>::empty());
    }
    while i < len
        invariant
            len == s@.len(),
            i <= len,
            out.deep_view() + spec_split(s@.skip(i as int)) =~= spec_split(s@),
        decreases len - i,
    {
        let c = s.get_char(i);
        if c == '/' {
            proof {
                assert(s@.skip(i as int)[0] == '/');
                assert(s@.skip(i as int).drop_first() =~= s@.skip(i as int + 1));
            }
            i += 1;
        } else {
            let mut j = i + 1;
            while j < len && s.get_char(j) != '/'
                invariant
                    i < j <= len,
                    len == s@.len(),
                    s@[i as int] != '/',
                    forall|k: int| i <= k < j ==> #[trigger] s@[k] != '/',
                decreases len - j,
            {
                j += 1;
            }
            proof {
                assert(j == len || s@[j as int] == '/');
            }
            let seg = s.substring_char(i, j).to_owned();
            proof {
                let part = s@.subrange(i as int, j as int);
                let tail = s@.skip(j as int);
                assert(part + tail =~= s@.skip(i as int));
                assert(forall|k: int| 0 <= k < part.len() ==> #[trigger] part[k] == s@[i + k]);
                assert(tail.len() == 0 || tail[0] == '/');
                lemma_split_prefix(part, tail);
                assert(seg@ == part);
            }
            let ghost pre = out.deep_view();
            out.push(seg);
            proof {
                assert(out.deep_view() =~= pre.push(seg@));
                assert(out.deep_view() + spec_split(s@.skip(j as int)) =~= spec_split(s@));
            }
            i = j;
        }
    }
    proof {
        assert(s@.skip(len as int).len() == 0);
        assert(out.deep_view() + Seq::<Seq<char>>::empty() =~= out.deep_view());
    }
    out
}

/// The URL text that renders a sequence of path segments: `/` before each.
pub open spec fn spec_render_parts(parts: Seq<Seq<char>>) -> Seq<char>
    decreases parts.len(),
{
    if parts.len() == 0 {
        Seq::empty()
    } else {
        seq!['/'] + parts[0] + spec_render_parts(parts.drop_first())
    }
}

/// Splitting a rendered path gives the segments back.
pub proof fn lemma_split_render(parts: Seq<Seq<char>>)
    requires
        forall|i: int| 0 <= i < parts.len() ==> (#[trigger] parts[i]).len() > 0,
        forall|i: int, k: int|
            0 <= i < parts.len() && 0 <= k < parts[i].len() ==> #[trigger] parts[i][k] != '/',
    ensures
        spec_split(spec_render_parts(parts)) == parts,
    decreases parts.len(),
{
    if parts.len() == 0 {
        assert(spec_split(Seq::<char>::empty()) =~= Seq::<Seq<char>>::empty());
    } else {
        let rest = parts.drop_first();
        lemma_split_render(rest);
        let tail = spec_render_parts(rest);
        let s = seq!['/'] + parts[0] + tail;
        assert(s[0] == '/');
        assert(s.drop_first() =~= parts[0] + tail);
        assert(tail.len() == 0 || tail[0] == '/') by {
            if rest.len() > 0 {
                assert(tail == seq!['/'] + rest[0] + spec_render_parts(rest.drop_first()));
            }
        }
        assert(forall|k: int| 0 <= k < parts[0].len() ==> #[trigger] parts[0][k] != '/');
        lemma_split_prefix(parts[0], tail);
        assert(spec_split(s) == spec_split(parts[0] + tail));
        assert(spec_split(parts[0] + tail) == seq![parts[0]] + spec_split(tail));
        assert(seq![parts[0]] + rest =~= parts);
    }
}

/// Whether the given values fit the pattern's parameters, in order.
pub open spec fn vals_fit(p: Seq<SegModel>, vals: Seq<ParamValueModel>) -> bool
    decreases p.len(),
{
    if p.len() == 0 {
        vals.len() == 0
    } else {
        match p[0] {
            SegModel::Lit(_) => vals_fit(p.drop_first(), vals),
            SegModel::Param(_, ParamKind::Int) => vals.len() > 0 && vals[0] is IntVal
                && vals_fit(p.drop_first(), vals.drop_first()),
            SegModel::Param(_, ParamKind::Text) => vals.len() > 0 && vals[0] is TextVal
                && vals_fit(p.drop_first(), vals.drop_first()),
        }
    }
}

/// The path segments that rendering a pattern with parameter values gives:
/// literals as they stand, integers in canonical decimal, text as it is.
pub open spec fn parts_of(p: Seq<SegModel>, vals: Seq<ParamValueModel>) -> Seq<Seq<char>>
    decreases p.len(),
{
    if p.len() == 0 {
        Seq::empty()
    } else {
        match p[0] {
            SegModel::Lit(l) => seq![l] + parts_of(p.drop_first(), vals),
            SegModel::Param(_, _) => seq![
                match vals[0] {
                    ParamValueModel::IntVal(v) => crate::decimal::spec_render_int(v),
                    ParamValueModel::TextVal(t) => t,
                },
            ] + parts_of(p.drop_first(), vals.drop_first()),
        }
    }
}

/// The bindings that matching a rendered pattern must produce: each
/// parameter name paired with the value it was rendered with.
pub open spec fn expected_bindings(p: Seq<SegModel>, vals: Seq<ParamValueModel>) -> Seq<
    (Seq<char>, ParamValueModel),
>
    decreases p.len(),
{
    if p.len() == 0 {
        Seq::empty()
    } else {
        match p[0] {
            SegModel::Lit(_) => expected_bindings(p.drop_first(), vals),
            SegModel::Param(n, _) => seq![(n, vals[0])] + expected_bindings(
                p.drop_first(),
                vals.drop_first(),
            ),
        }
    }
}

/// A text parameter value that can survive a round trip: nonempty, no `/`.
pub open spec fn val_routable(v: ParamValueModel) -> bool {
    match v {
        ParamValueModel::IntVal(v) => i64::MIN <= v <= i64::MAX,
        ParamValueModel::TextVal(t) => t.len() > 0 && forall|k: int|
            0 <= k < t.len() ==> #[trigger] t[k] != '/',
    }
}

/// Law (round trip, segment level): a pattern unifies with its own rendered
/// segments, and the bindings it then produces are exactly the names paired
/// with the values it was rendered with.
pub proof fn lemma_render_match(p: Seq<SegModel>, vals: Seq<ParamValueModel>)
    requires
        pattern_ok(p),
        vals_fit(p, vals),
        forall|i: int| 0 <= i < vals.len() ==> val_routable(#[trigger] vals[i]),
    ensures
        parts_match(p, parts_of(p, vals)),
        bindings(p, parts_of(p, vals)) == expected_bindings(p, vals),
    decreases p.len(),
{
    if p.len() > 0 {
        let parts = parts_of(p, vals);
        assert(pattern_ok(p.drop_first())) by {
            assert(forall|i: int|
                0 <= i < p.drop_first().len() ==> #[trigger] p.drop_first()[i] == p[i + 1]);
        }
        match p[0] {
            SegModel::Lit(l) => {
                lemma_render_match(p.drop_first(), vals);
                assert(parts == seq![l] + parts_of(p.drop_first(), vals));
                assert(parts[0] == l);
                assert(parts.drop_first() =~= parts_of(p.drop_first(), vals));
                assert(seg_matches(p[0], parts[0]));
                assert(parts_match(p, parts)) by {
                    assert(forall|i: int|
                        1 <= i < p.len() ==> #[trigger] p[i] == p.drop_first()[i - 1]
                            && parts[i] == parts.drop_first()[i - 1]);
                }
                assert(bindings(p, parts) == bindings(
                    p.drop_first(),
                    parts.drop_first(),
                ));
            },
            SegModel::Param(n, k) => {
                assert(vals.len() > 0);
                assert(val_routable(vals[0]));
                assert(forall|i: int|
                    0 <= i < vals.drop_first().len() ==> #[trigger] vals.drop_first()[i] == vals[i
                        + 1]);
                lemma_render_match(p.drop_first(), vals.drop_first());
                let part0 = match vals[0] {
                    ParamValueModel::IntVal(v) => crate::decimal::spec_render_int(v),
                    ParamValueModel::TextVal(t) => t,
                };
                assert(parts == seq![part0] + parts_of(p.drop_first(), vals.drop_first()));
                assert(parts[0] == part0);
                assert(parts.drop_first() =~= parts_of(p.drop_first(), vals.drop_first()));
                match vals[0] {
                    ParamValueModel::IntVal(v) => {
                        crate::decimal::lemma_parse_render_int(v);
                        assert(k == ParamKind::Int);
                        assert(seg_matches(p[0], parts[0]));
                        assert(binding_of(p[0], parts[0]) == ParamValueModel::IntVal(v));
                    },
                    ParamValueModel::TextVal(t) => {
                        assert(k == ParamKind::Text);
                        assert(seg_matches(p[0], parts[0]));
                        assert(binding_of(p[0], parts[0]) == ParamValueModel::TextVal(t));
                    },
                }
                assert(parts_match(p, parts)) by {
                    assert(forall|i: int|
                        1 <= i < p.len() ==> #[trigger] p[i] == p.drop_first()[i - 1]
                            && parts[i] == parts.drop_first()[i - 1]);
                }
                assert(bindings(p, parts) == seq![(n, binding_of(p[0], parts[0]))] + bindings(
                    p.drop_first(),
                    parts.drop_first(),
                ));
            },
        }
    }
}

/// Law (round trip, table level): render a matched leaf's path with its
/// parameter values and match it again; if no earlier leaf captures the
/// rendered path, the same leaf wins with the same bindings. An earlier
/// leaf whose pattern also unifies — say a text parameter declared before
/// an integer one over the same shape — captures the path instead, which
/// is the first-match rule doing its work, so that case is excluded here.
pub proof fn lemma_link_round_trip(
    t: Seq<EntryModel>,
    leaf: int,
    p: Seq<SegModel>,
    vals: Seq<ParamValueModel>,
    comp: u64,
)
    requires
        0 <= leaf < t.len(),
        t[leaf] == EntryModel::Leaf(p, comp),
        pattern_ok(p),
        vals_fit(p, vals),
        forall|i: int| 0 <= i < vals.len() ==> val_routable(#[trigger] vals[i]),
        forall|j: int|
            0 <= j < leaf ==> match #[trigger] t[j] {
                EntryModel::Leaf(q, _) => !parts_match(q, parts_of(p, vals)),
                _ => true,
            },
    ensures
        first_leaf_from(t, parts_of(p, vals), 0) == Some(leaf),
        bindings(p, parts_of(p, vals)) == expected_bindings(p, vals),
{
    lemma_render_match(p, vals);
    lemma_first_leaf_of(t, parts_of(p, vals), 0, leaf);
}

proof fn lemma_first_leaf_of(t: Seq<EntryModel>, parts: Seq<Seq<char>>, i: int, leaf: int)
    requires
        0 <= i <= leaf < t.len(),
        t[leaf] matches EntryModel::Leaf(p, _) && parts_match(p, parts),
        forall|j: int|
            i <= j < leaf ==> match #[trigger] t[j] {
                EntryModel::Leaf(q, _) => !parts_match(q, parts),
                _ => true,
            },
    ensures
        first_leaf_from(t, parts, i) == Some(leaf),
    decreases t.len() - i,
{
    if i < leaf {
        lemma_first_leaf_of(t, parts, i + 1, leaf);
    }
}

/// Render the URL for a leaf pattern with parameter values, `/` before each
/// segment: the `Link` target. `None` exactly when the values do not fit
/// the pattern's parameters.
pub fn render_path(pat: &Pattern, vals: &Vec<ParamValue>) -> (r: Option<String>)
    ensures
        r is Some <==> vals_fit(pat@, vals.deep_view()),
        r matches Some(out) ==> out@ == spec_render_parts(parts_of(pat@, vals.deep_view())),
{
    let np = pat.segs.len();
    let mut out = String::new();
    let mut vi: usize = 0;
    let mut i: usize = 0;
    proof {
        reveal_strlit("/");
        assert("/"@ =~= seq!['/']);
        assert(pat@.take(0) =~= Seq::<SegModel>::empty());
        assert(vals.deep_view().take(0) =~= Seq::<ParamValueModel>::empty());
        assert(pat@.skip(0) =~= pat@);
        assert(vals.deep_view().skip(0) =~= vals.deep_view());
        assert(vals_fit(pat@.take(0), vals.deep_view().take(0)));
        assert(spec_render_parts(parts_of(pat@, vals.deep_view())) =~= out@ + spec_render_parts(
            parts_of(pat@.skip(0), vals.deep_view().skip(0)),
        ));
    }
    while i < np
        invariant
            np == pat@.len(),
            np == pat.segs@.len(),
            i <= np,
            vi <= vals@.len(),
            vals.deep_view().len() == vals@.len(),
            vals_fit(pat@.take(i as int), vals.deep_view().take(vi as int)),
            "/"@ =~= seq!['/'],
            vals_fit(pat@, vals.deep_view()) == vals_fit(
                pat@.skip(i as int),
                vals.deep_view().skip(vi as int),
            ),
            spec_render_parts(parts_of(pat@, vals.deep_view())) == out@ + spec_render_parts(
                parts_of(pat@.skip(i as int), vals.deep_view().skip(vi as int)),
            ),
        decreases np - i,
    {
        proof {
            assert(pat@[i as int] == pat.segs@[i as int].deep_view());
            assert(pat@.skip(i as int)[0] == pat@[i as int]);
            assert(pat@.skip(i as int).drop_first() =~= pat@.skip(i as int + 1));
        }
        out.append("/");
        match &pat.segs[i] {
            Segment::Lit(l) => {
                out.append(l.as_str());
                proof {
                    lemma_step_fit_lit(pat@, vals.deep_view(), i as int, vi as int);
                    assert(spec_render_parts(parts_of(pat@, vals.deep_view())) =~= out@
                        + spec_render_parts(
                        parts_of(pat@.skip(i as int + 1), vals.deep_view().skip(vi as int)),
                    ));
                }
            },
            Segment::Param(_n, _k) => {
                if vi >= vals.len() {
                    proof {
                        assert(vals.deep_view().skip(vi as int).len() == 0);
                        assert(!vals_fit(
                            pat@.skip(i as int),
                            vals.deep_view().skip(vi as int),
                        ));
                    }
                    return None;
                }
                proof {
                    assert(vals.deep_view()[vi as int] == vals@[vi as int]@);
                    assert(vals.deep_view().skip(vi as int)[0] == vals.deep_view()[vi as int]);
                    assert(vals.deep_view().skip(vi as int).drop_first() =~= vals.deep_view().skip(
                        vi as int + 1,
                    ));
                }
                match (&pat.segs[i], &vals[vi]) {
                    (Segment::Param(_, ParamKind::Int), ParamValue::IntVal(v)) => {
                        let d = crate::decimal::render_int(*v);
                        out.append(d.as_str());
                    },
                    (Segment::Param(_, ParamKind::Text), ParamValue::TextVal(tv)) => {
                        out.append(tv.as_str());
                    },
                    _ => {
                        proof {
                            assert(!vals_fit(
                                pat@.skip(i as int),
                                vals.deep_view().skip(vi as int),
                            ));
                        }
                        return None;
                    },
                }
                vi = vi + 1;
                proof {
                    lemma_step_fit_param(pat@, vals.deep_view(), i as int, vi as int - 1);
                    assert(spec_render_parts(parts_of(pat@, vals.deep_view())) =~= out@
                        + spec_render_parts(
                        parts_of(pat@.skip(i as int + 1), vals.deep_view().skip(vi as int)),
                    ));
                }
            },
        }
        i += 1;
    }
    if vi != vals.len() {
        proof {
            assert(pat@.skip(np as int).len() == 0);
            assert(vals.deep_view().skip(vi as int).len() > 0);
            assert(!vals_fit(pat@.skip(np as int), vals.deep_view().skip(vi as int)));
        }
        return None;
    }
    proof {
        assert(pat@.take(np as int) =~= pat@);
        assert(vals.deep_view().take(vi as int) =~= vals.deep_view());
        assert(pat@.skip(np as int).len() == 0);
        assert(vals.deep_view().skip(vi as int).len() == 0);
        assert(parts_of(pat@.skip(np as int), vals.deep_view().skip(vi as int)).len() == 0);
        assert(out@ =~= out@ + spec_render_parts(
            parts_of(pat@.skip(np as int), vals.deep_view().skip(vi as int)),
        ));
    }
    Some(out)
}

/// Peeling a literal off the front keeps fit and render aligned.
proof fn lemma_step_fit_lit(p: Seq<SegModel>, vals: Seq<ParamValueModel>, i: int, vi: int)
    requires
        0 <= i < p.len(),
        0 <= vi <= vals.len(),
        p[i] is Lit,
        vals_fit(p.take(i), vals.take(vi)),
    ensures
        vals_fit(p.take(i + 1), vals.take(vi)),
        parts_of(p.take(i + 1), vals.take(vi)) == parts_of(p.take(i), vals.take(vi)).push(
            p[i]->Lit_0,
        ),
        vals_fit(p.skip(i), vals.skip(vi)) == vals_fit(p.skip(i + 1), vals.skip(vi)),
        parts_of(p.skip(i), vals.skip(vi)) == seq![p[i]->Lit_0] + parts_of(
            p.skip(i + 1),
            vals.skip(vi),
        ),
        spec_render_parts(parts_of(p.skip(i), vals.skip(vi))) == seq!['/'] + p[i]->Lit_0
            + spec_render_parts(parts_of(p.skip(i + 1), vals.skip(vi))),
{
    assert(p.skip(i)[0] == p[i]);
    assert(p.skip(i).drop_first() =~= p.skip(i + 1));
    lemma_fit_parts_snoc_lit(p, vals, i, vi);
    let parts = parts_of(p.skip(i), vals.skip(vi));
    assert(parts == seq![p[i]->Lit_0] + parts_of(p.skip(i + 1), vals.skip(vi)));
    assert(parts[0] == p[i]->Lit_0);
    assert(parts.drop_first() =~= parts_of(p.skip(i + 1), vals.skip(vi)));
}

proof fn lemma_fit_parts_snoc_lit(p: Seq<SegModel>, vals: Seq<ParamValueModel>, i: int, vi: int)
    requires
        0 <= i < p.len(),
        0 <= vi <= vals.len(),
        p[i] is Lit,
        vals_fit(p.take(i), vals.take(vi)),
    ensures
        vals_fit(p.take(i + 1), vals.take(vi)),
        parts_of(p.take(i + 1), vals.take(vi)) == parts_of(p.take(i), vals.take(vi)).push(
            p[i]->Lit_0,
        ),
    decreases i,
{
    assert(p.take(i + 1).take(i) =~= p.take(i));
    assert(p.take(i + 1)[i] == p[i]);
    lemma_snoc_general(p.take(i + 1), vals.take(vi), p.take(i), vals.take(vi));
}

/// Peeling a parameter off the front keeps fit and render aligned.
proof fn lemma_step_fit_param(p: Seq<SegModel>, vals: Seq<ParamValueModel>, i: int, vi: int)
    requires
        0 <= i < p.len(),
        0 <= vi < vals.len(),
        p[i] is Param,
        vals_fit(p.take(i), vals.take(vi)),
        match (p[i], vals[vi]) {
            (SegModel::Param(_, ParamKind::Int), ParamValueModel::IntVal(_)) => true,
            (SegModel::Param(_, ParamKind::Text), ParamValueModel::TextVal(_)) => true,
            _ => false,
        },
    ensures
        vals_fit(p.take(i + 1), vals.take(vi + 1)),
        parts_of(p.take(i + 1), vals.take(vi + 1)) == parts_of(p.take(i), vals.take(vi)).push(
            match vals[vi] {
                ParamValueModel::IntVal(v) => crate::decimal::spec_render_int(v),
                ParamValueModel::TextVal(t) => t,
            },
        ),
        vals_fit(p.skip(i), vals.skip(vi)) == vals_fit(p.skip(i + 1), vals.skip(vi + 1)),
        spec_render_parts(parts_of(p.skip(i), vals.skip(vi))) == seq!['/'] + (match vals[vi] {
            ParamValueModel::IntVal(v) => crate::decimal::spec_render_int(v),
            ParamValueModel::TextVal(t) => t,
        }) + spec_render_parts(parts_of(p.skip(i + 1), vals.skip(vi + 1))),
{
    assert(p.skip(i)[0] == p[i]);
    assert(p.skip(i).drop_first() =~= p.skip(i + 1));
    assert(vals.skip(vi)[0] == vals[vi]);
    assert(vals.skip(vi).drop_first() =~= vals.skip(vi + 1));
    assert(p.take(i + 1).take(i) =~= p.take(i));
    assert(p.take(i + 1)[i] == p[i]);
    assert(vals.take(vi + 1).take(vi) =~= vals.take(vi));
    assert(vals.take(vi + 1).last() == vals[vi]);
    lemma_snoc_general(p.take(i + 1), vals.take(vi + 1), p.take(i), vals.take(vi));
    let parts = parts_of(p.skip(i), vals.skip(vi));
    let part0 = match vals[vi] {
        ParamValueModel::IntVal(v) => crate::decimal::spec_render_int(v),
        ParamValueModel::TextVal(t) => t,
    };
    assert(parts == seq![part0] + parts_of(p.skip(i + 1), vals.skip(vi + 1)));
    assert(parts[0] == part0);
    assert(parts.drop_first() =~= parts_of(p.skip(i + 1), vals.skip(vi + 1)));
}

/// `vals_fit` and `parts_of` over a sequence extended by one segment.
proof fn lemma_snoc_general(
    p1: Seq<SegModel>,
    v1: Seq<ParamValueModel>,
    p0: Seq<SegModel>,
    v0: Seq<ParamValueModel>,
)
    requires
        p1.len() == p0.len() + 1,
        p1.take(p0.len() as int) == p0,
        vals_fit(p0, v0),
        match p1[p0.len() as int] {
            SegModel::Lit(_) => v1 == v0,
            SegModel::Param(_, ParamKind::Int) => v1.len() == v0.len() + 1 && v1.take(
                v0.len() as int,
            ) == v0 && v1.last() is IntVal,
            SegModel::Param(_, ParamKind::Text) => v1.len() == v0.len() + 1 && v1.take(
                v0.len() as int,
            ) == v0 && v1.last() is TextVal,
        },
    ensures
        vals_fit(p1, v1),
        parts_of(p1, v1) == parts_of(p0, v0).push(
            match p1[p0.len() as int] {
                SegModel::Lit(l) => l,
                SegModel::Param(_, _) => match v1.last() {
                    ParamValueModel::IntVal(v) => crate::decimal::spec_render_int(v),
                    ParamValueModel::TextVal(t) => t,
                },
            },
        ),
    decreases p0.len(),
{
    if p0.len() == 0 {
        assert(p1.len() == 1);
        match p1[0] {
            SegModel::Lit(l) => {
                assert(v1.len() == 0);
                assert(p1.drop_first().len() == 0);
                assert(vals_fit(p1.drop_first(), v1));
                assert(parts_of(p1, v1) == seq![l] + parts_of(p1.drop_first(), v1));
                assert(parts_of(p1, v1) =~= parts_of(p0, v0).push(l));
            },
            SegModel::Param(_, _) => {
                assert(v1.len() == 1);
                assert(v1[0] == v1.last());
                assert(p1.drop_first().len() == 0);
                assert(v1.drop_first().len() == 0);
                assert(vals_fit(p1.drop_first(), v1.drop_first()));
                assert(vals_fit(p1, v1));
                let part0 = match v1[0] {
                    ParamValueModel::IntVal(v) => crate::decimal::spec_render_int(v),
                    ParamValueModel::TextVal(t) => t,
                };
                assert(parts_of(p1, v1) == seq![part0] + parts_of(
                    p1.drop_first(),
                    v1.drop_first(),
                ));
                assert(parts_of(p1, v1) =~= parts_of(p0, v0).push(part0));
            },
        }
    } else {
        assert(p1[0] == p0[0]);
        assert(p1.drop_first().len() == p0.drop_first().len() + 1);
        assert(p1.drop_first().take(p0.drop_first().len() as int) =~= p0.drop_first());
        assert(p1.drop_first()[p0.drop_first().len() as int] == p1[p0.len() as int]);
        match p0[0] {
            SegModel::Lit(l) => {
                lemma_snoc_general(p1.drop_first(), v1, p0.drop_first(), v0);
                assert(parts_of(p1, v1) == seq![l] + parts_of(p1.drop_first(), v1));
                assert(parts_of(p0, v0) == seq![l] + parts_of(p0.drop_first(), v0));
                assert(parts_of(p1, v1) =~= parts_of(p0, v0).push(
                    match p1[p0.len() as int] {
                        SegModel::Lit(l2) => l2,
                        SegModel::Param(_, _) => match v1.last() {
                            ParamValueModel::IntVal(v) => crate::decimal::spec_render_int(v),
                            ParamValueModel::TextVal(t) => t,
                        },
                    },
                ));
            },
            SegModel::Param(_, _) => {
                assert(v0.len() > 0);
                assert(v1.len() > 0);
                match p1[p0.len() as int] {
                    SegModel::Lit(_) => {
                        assert(v1 == v0);
                        assert(v1.drop_first() =~= v0.drop_first());
                    },
                    SegModel::Param(_, _) => {
                        assert(v1.take(v0.len() as int)[0] == v0[0]);
                        assert(v1.take(v0.len() as int)[0] == v1[0]);
                        assert(v1.drop_first().len() == v0.drop_first().len() + 1);
                        assert(v1.drop_first().take(v0.drop_first().len() as int)
                            =~= v0.drop_first());
                        assert(v1.drop_first().last() == v1.last());
                    },
                }
                assert(v1[0] == v0[0]);
                lemma_snoc_general(p1.drop_first(), v1.drop_first(), p0.drop_first(), v0.drop_first());
                let part0 = match v0[0] {
                    ParamValueModel::IntVal(v) => crate::decimal::spec_render_int(v),
                    ParamValueModel::TextVal(t) => t,
                };
                assert(parts_of(p1, v1) == seq![part0] + parts_of(
                    p1.drop_first(),
                    v1.drop_first(),
                ));
                assert(parts_of(p0, v0) == seq![part0] + parts_of(
                    p0.drop_first(),
                    v0.drop_first(),
                ));
                assert(parts_of(p1, v1) =~= parts_of(p0, v0).push(
                    match p1[p0.len() as int] {
                        SegModel::Lit(l2) => l2,
                        SegModel::Param(_, _) => match v1.last() {
                            ParamValueModel::IntVal(v) => crate::decimal::spec_render_int(v),
                            ParamValueModel::TextVal(t) => t,
                        },
                    },
                ));
            },
        }
    }
}

/// The first `:` in a sequence, or its length when none occurs.
pub open spec fn first_colon(s: Seq<char>) -> int
    decreases s.len(),
{
    if s.len() == 0 {
        0
    } else if s[0] == ':' {
        0
    } else {
        1 + first_colon(s.drop_first())
    }
}

proof fn lemma_first_colon_at(s: Seq<char>, j: int)
    requires
        0 <= j <= s.len(),
        forall|k: int| 0 <= k < j ==> s[k] != ':',
        j == s.len() || s[j] == ':',
    ensures
        first_colon(s) == j,
    decreases s.len(),
{
    if s.len() > 0 && j > 0 {
        assert(s[0] != ':');
        assert(forall|k: int|
            0 <= k < j - 1 ==> #[trigger] s.drop_first()[k] == s[k + 1]);
        assert(j - 1 == s.drop_first().len() || s.drop_first()[j - 1] == ':');
        lemma_first_colon_at(s.drop_first(), j - 1);
    }
}

/// What one slash-delimited piece of pattern text declares: a literal, or
/// `:name:int` / `:name:str` for a typed parameter. Anything else — a
/// missing or unknown type, an empty name — is unparseable.
pub open spec fn spec_seg_model(part: Seq<char>) -> Option<SegModel> {
    if part.len() > 0 && part[0] == ':' {
        let rest = part.skip(1);
        let j = first_colon(rest);
        if 0 < j < rest.len() {
            let name = rest.take(j);
            let kind = rest.skip(j + 1);
            if kind == seq!['i', 'n', 't'] {
                Some(SegModel::Param(name, ParamKind::Int))
            } else if kind == seq!['s', 't', 'r'] {
                Some(SegModel::Param(name, ParamKind::Text))
            } else {
                None
            }
        } else {
            None
        }
    } else if part.len() > 0 {
        Some(SegModel::Lit(part))
    } else {
        None
    }
}

/// What a whole pattern text declares: its nonempty segments, each one
/// parsed; unparseable exactly when some segment is.
pub open spec fn spec_parse_pattern(s: Seq<char>) -> Option<Seq<SegModel>> {
    let parts = spec_split(s);
    if forall|i: int| 0 <= i < parts.len() ==> (#[trigger] spec_seg_model(parts[i])) is Some {
        Some(Seq::new(parts.len(), |i: int| spec_seg_model(parts[i]).unwrap()))
    } else {
        None
    }
}

/// A route declaration that cannot be accepted; reported at start-up.
#[derive(Clone, Copy, Debug, PartialEq, Eq, Structural)]
pub enum DeclError {
    UnparseablePattern,
}

/// Parse one slash-delimited piece of pattern text.
fn parse_segment(part: &String) -> (r: Option<Segment>)
    ensures
        match r {
            Some(seg) => spec_seg_model(part@) == Some(seg@),
            None => spec_seg_model(part@) is None,
        },
{
    let len = part.as_str().unicode_len();
    if len == 0 {
        return None;
    }
    if part.as_str().get_char(0) != ':' {
        return Some(Segment::Lit(part.clone()));
    }
    let mut j: usize = 1;
    while j < len && part.as_str().get_char(j) != ':'
        invariant
            1 <= j <= len,
            len == part@.len(),
            forall|k: int| 1 <= k < j ==> part@[k] != ':',
        decreases len - j,
    {
        j += 1;
    }
    proof {
        let rest = part@.skip(1);
        assert(forall|k: int| 0 <= k < rest.len() ==> #[trigger] rest[k] == part@[k + 1]);
        lemma_first_colon_at(rest, j - 1);
    }
    if j <= 1 || j >= len {
        // No kind follows, or the name is empty.
        return None;
    }
    let name = part.as_str().substring_char(1, j).to_owned();
    let kind = part.as_str().substring_char(j + 1, len).to_owned();
    proof {
        reveal_strlit("int");
        reveal_strlit("str");
        assert("int"@ =~= seq!['i', 'n', 't']);
        assert("str"@ =~= seq!['s', 't', 'r']);
        assert(name@ =~= part@.skip(1).take(j - 1));
        assert(kind@ =~= part@.skip(1).skip(j as int));
    }
    if String::eq(&kind, &String::from_str("int")) {
        Some(Segment::Param(name, ParamKind::Int))
    } else if String::eq(&kind, &String::from_str("str")) {
        Some(Segment::Param(name, ParamKind::Text))
    } else {
        None
    }
}

/// Parse pattern text such as `/blog/:id:int` into a pattern: literals as
/// they stand, `:name:int` and `:name:str` as typed parameters. `Err`
/// exactly when some segment is unparseable.
pub fn parse_pattern(s: &str) -> (r: Result<Pattern, DeclError>)
    ensures
        match r {
            Ok(p) => spec_parse_pattern(s@) == Some(p@),
            Err(_) => spec_parse_pattern(s@) is None,
        },
{
    let parts = split_path(s);
    let n = parts.len();
    let mut segs: Vec<Segment> = Vec::new();
    let mut i: usize = 0;
    while i < n
        invariant
            n == parts@.len(),
            parts.deep_view() == spec_split(s@),
            i <= n,
            segs@.len() == i,
            forall|k: int|
                0 <= k < i ==> spec_seg_model(spec_split(s@)[k]) == Some(
                    #[trigger] segs.deep_view()[k],
                ),
        decreases n - i,
    {
        proof {
            assert(parts.deep_view()[i as int] == parts@[i as int]@);
        }
        let ghost d0 = segs.deep_view();
        match parse_segment(&parts[i]) {
            Some(seg) => {
                segs.push(seg);
                proof {
                    assert(segs.deep_view() =~= d0.push(seg@));
                    assert forall|k: int|
                        0 <= k < i + 1 implies spec_seg_model(spec_split(s@)[k]) == Some(
                        #[trigger] segs.deep_view()[k],
                    ) by {
                        if k < i {
                            assert(segs.deep_view()[k] == d0[k]);
                        } else {
                            assert(segs.deep_view()[k] == seg@);
                        }
                    }
                }
            },
            None => {
                proof {
                    assert(spec_seg_model(spec_split(s@)[i as int]) is None);
                }
                return Err(DeclError::UnparseablePattern);
            },
        }
        i += 1;
    }
    let p = Pattern { segs };
    proof {
        let parts_s = spec_split(s@);
        assert forall|k: int| 0 <= k < parts_s.len() implies (#[trigger] spec_seg_model(
            parts_s[k],
        )) is Some by {
            assert(spec_seg_model(parts_s[k]) == Some(p@[k]));
        }
        assert(p@ =~= Seq::new(parts_s.len(), |k: int| spec_seg_model(parts_s[k]).unwrap()));
    }
    Ok(p)
}

} // verus!
