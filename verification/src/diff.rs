//! The plan: how one model diverges from another, element by element.
//!
//! Identity is carried by ids, so a reparent reads as a move and a relabel as a
//! reword. Properties have no id: they are identified by owner and label.

use crate::changes::{key_for, key_of};
use crate::model::{
    directive_lines, directives_rendered, find_last_node, last_node, Group, GroupView, Kind,
    Link, LinkView, Node, NodeView, Responsibility, ResponsibilityView, SchemaProperty,
    SchemaPropertyView, ScryModel, ScryModelView,
};
use crate::modelled::{at, fresh, is_on, or_empty, put, text_or_empty, Modelled};
use crate::strmap::StrMap;
use crate::text::{ascending, holds, join, joined, same_text};
use vstd::prelude::*;
use vstd::string::*;

verus! {

/// Which kind of element a change concerns.
#[derive(Debug, Clone, Copy, PartialEq, Eq, Structural, Hash)]
pub enum ElementKind {
    Node,
    Link,
    Responsibility,
    Property,
    Group,
}

impl DeepView for ElementKind {
    type V = ElementKind;

    open spec fn deep_view(&self) -> ElementKind {
        *self
    }
}

impl Modelled for ElementKind {
    fn dup(&self) -> (r: Self) {
        *self
    }

    fn same(&self, other: &Self) -> (r: bool) {
        *self == *other
    }
}

/// One divergence of an element. Several can stack on one element.
#[derive(Debug, PartialEq)]
#[allow(inconsistent_fields)]
pub enum Change {
    /// Only in the target.
    Added,
    /// Only in the base.
    Deleted,
    /// Another owner; none stands for the root.
    Moved { from: Option<String>, to: Option<String> },
    /// Other link ends.
    Repointed { src_from: String, src_to: String, dst_from: String, dst_to: String },
    /// Another text in a truth-bearing field.
    Reworded { field: String, from: String, to: String },
    /// Other members in a group.
    MembersChanged { added: Vec<String>, removed: Vec<String> },
}

/// The model of a [`Change`].
#[allow(inconsistent_fields)]
pub enum ChangeView {
    Added,
    Deleted,
    Moved { from: Option<Seq<char>>, to: Option<Seq<char>> },
    Repointed { src_from: Seq<char>, src_to: Seq<char>, dst_from: Seq<char>, dst_to: Seq<char> },
    Reworded { field: Seq<char>, from: Seq<char>, to: Seq<char> },
    MembersChanged { added: Seq<Seq<char>>, removed: Seq<Seq<char>> },
}

impl DeepView for Change {
    type V = ChangeView;

    open spec fn deep_view(&self) -> ChangeView {
        match self {
            Change::Added => ChangeView::Added,
            Change::Deleted => ChangeView::Deleted,
            Change::Moved { from, to } => ChangeView::Moved {
                from: from.deep_view(),
                to: to.deep_view(),
            },
            Change::Repointed { src_from, src_to, dst_from, dst_to } => ChangeView::Repointed {
                src_from: src_from@,
                src_to: src_to@,
                dst_from: dst_from@,
                dst_to: dst_to@,
            },
            Change::Reworded { field, from, to } => ChangeView::Reworded {
                field: field@,
                from: from@,
                to: to@,
            },
            Change::MembersChanged { added, removed } => ChangeView::MembersChanged {
                added: added.deep_view(),
                removed: removed.deep_view(),
            },
        }
    }
}

impl Modelled for Change {
    fn dup(&self) -> (r: Self) {
        match self {
            Change::Added => Change::Added,
            Change::Deleted => Change::Deleted,
            Change::Moved { from, to } => Change::Moved { from: from.dup(), to: to.dup() },
            Change::Repointed { src_from, src_to, dst_from, dst_to } => Change::Repointed {
                src_from: src_from.dup(),
                src_to: src_to.dup(),
                dst_from: dst_from.dup(),
                dst_to: dst_to.dup(),
            },
            Change::Reworded { field, from, to } => Change::Reworded {
                field: field.dup(),
                from: from.dup(),
                to: to.dup(),
            },
            Change::MembersChanged { added, removed } => Change::MembersChanged {
                added: added.dup(),
                removed: removed.dup(),
            },
        }
    }

    fn same(&self, other: &Self) -> (r: bool) {
        match (self, other) {
            (Change::Added, Change::Added) => true,
            (Change::Deleted, Change::Deleted) => true,
            (
                Change::Moved { from, to },
                Change::Moved { from: from2, to: to2 },
            ) => from.same(from2) && to.same(to2),
            (
                Change::Repointed { src_from, src_to, dst_from, dst_to },
                Change::Repointed { src_from: sf, src_to: st, dst_from: df, dst_to: dt },
            ) => src_from.same(sf) && src_to.same(st) && dst_from.same(df) && dst_to.same(dt),
            (
                Change::Reworded { field, from, to },
                Change::Reworded { field: field2, from: from2, to: to2 },
            ) => field.same(field2) && from.same(from2) && to.same(to2),
            (
                Change::MembersChanged { added, removed },
                Change::MembersChanged { added: added2, removed: removed2 },
            ) => added.same(added2) && removed.same(removed2),
            _ => false,
        }
    }
}

impl Clone for Change {
    fn clone(&self) -> (r: Self)
        ensures
            r.deep_view() == self.deep_view(),
    {
        self.dup()
    }
}


/// Every divergence recorded against one element.
#[derive(Debug, PartialEq)]
pub struct ElementChange {
    pub kind: ElementKind,
    pub id: String,
    /// The host of a claim or property; none for the rest.
    pub owner_id: Option<String>,
    /// What to show for the element.
    pub label: String,
    /// For a link, its source.
    pub from: Option<String>,
    /// For a link, its destination.
    pub to: Option<String>,
    pub changes: Vec<Change>,
}

/// The model of a [`ElementChange`].
#[verifier::ext_equal]
pub struct ElementChangeView {
    pub kind: ElementKind,
    pub id: Seq<char>,
    pub owner_id: Option<Seq<char>>,
    pub label: Seq<char>,
    pub from: Option<Seq<char>>,
    pub to: Option<Seq<char>>,
    pub changes: Seq<ChangeView>,
}

impl DeepView for ElementChange {
    type V = ElementChangeView;

    open spec fn deep_view(&self) -> ElementChangeView {
        ElementChangeView {
            kind: self.kind.deep_view(),
            id: self.id.deep_view(),
            owner_id: self.owner_id.deep_view(),
            label: self.label.deep_view(),
            from: self.from.deep_view(),
            to: self.to.deep_view(),
            changes: self.changes.deep_view(),
        }
    }
}

impl Modelled for ElementChange {
    fn dup(&self) -> (r: Self) {
        ElementChange {
            kind: self.kind.dup(),
            id: self.id.dup(),
            owner_id: self.owner_id.dup(),
            label: self.label.dup(),
            from: self.from.dup(),
            to: self.to.dup(),
            changes: self.changes.dup(),
        }
    }

    fn same(&self, other: &Self) -> (r: bool) {
        self.kind.same(&other.kind)
            && self.id.same(&other.id)
            && self.owner_id.same(&other.owner_id)
            && self.label.same(&other.label)
            && self.from.same(&other.from)
            && self.to.same(&other.to)
            && self.changes.same(&other.changes)
    }
}

impl Clone for ElementChange {
    fn clone(&self) -> (r: Self)
        ensures
            r.deep_view() == self.deep_view(),
    {
        self.dup()
    }
}

/// All the element changes that take one model to another.
#[derive(Debug, PartialEq)]
pub struct ModelDiff {
    pub changes: Vec<ElementChange>,
}

/// The model of a [`ModelDiff`].
#[verifier::ext_equal]
pub struct ModelDiffView {
    pub changes: Seq<ElementChangeView>,
}

impl DeepView for ModelDiff {
    type V = ModelDiffView;

    open spec fn deep_view(&self) -> ModelDiffView {
        ModelDiffView {
            changes: self.changes.deep_view(),
        }
    }
}

impl Modelled for ModelDiff {
    fn dup(&self) -> (r: Self) {
        ModelDiff {
            changes: self.changes.dup(),
        }
    }

    fn same(&self, other: &Self) -> (r: bool) {
        self.changes.same(&other.changes)
    }
}

impl Clone for ModelDiff {
    fn clone(&self) -> (r: Self)
        ensures
            r.deep_view() == self.deep_view(),
    {
        self.dup()
    }
}

/// A claim with its host.
#[derive(Debug, PartialEq)]
pub struct OwnedResp {
    pub owner_id: String,
    pub resp: Responsibility,
}

/// The model of a [`OwnedResp`].
#[verifier::ext_equal]
pub struct OwnedRespView {
    pub owner_id: Seq<char>,
    pub resp: ResponsibilityView,
}

impl DeepView for OwnedResp {
    type V = OwnedRespView;

    open spec fn deep_view(&self) -> OwnedRespView {
        OwnedRespView {
            owner_id: self.owner_id.deep_view(),
            resp: self.resp.deep_view(),
        }
    }
}

impl Modelled for OwnedResp {
    fn dup(&self) -> (r: Self) {
        OwnedResp {
            owner_id: self.owner_id.dup(),
            resp: self.resp.dup(),
        }
    }

    fn same(&self, other: &Self) -> (r: bool) {
        self.owner_id.same(&other.owner_id)
            && self.resp.same(&other.resp)
    }
}

impl Clone for OwnedResp {
    fn clone(&self) -> (r: Self)
        ensures
            r.deep_view() == self.deep_view(),
    {
        self.dup()
    }
}

/// A property with its host.
#[derive(Debug, PartialEq)]
pub struct OwnedProp {
    pub owner_id: String,
    pub prop: SchemaProperty,
}

/// The model of a [`OwnedProp`].
#[verifier::ext_equal]
pub struct OwnedPropView {
    pub owner_id: Seq<char>,
    pub prop: SchemaPropertyView,
}

impl DeepView for OwnedProp {
    type V = OwnedPropView;

    open spec fn deep_view(&self) -> OwnedPropView {
        OwnedPropView {
            owner_id: self.owner_id.deep_view(),
            prop: self.prop.deep_view(),
        }
    }
}

impl Modelled for OwnedProp {
    fn dup(&self) -> (r: Self) {
        OwnedProp {
            owner_id: self.owner_id.dup(),
            prop: self.prop.dup(),
        }
    }

    fn same(&self, other: &Self) -> (r: bool) {
        self.owner_id.same(&other.owner_id)
            && self.prop.same(&other.prop)
    }
}

impl Clone for OwnedProp {
    fn clone(&self) -> (r: Self)
        ensures
            r.deep_view() == self.deep_view(),
    {
        self.dup()
    }
}
impl ModelDiff {
    /// Is there nothing to change?
    pub fn is_empty(&self) -> (r: bool)
        ensures
            r == (self.deep_view().changes.len() == 0),
    {
        self.changes.len() == 0
    }
}

// ---- what changed in one element -----------------------------------------------

/// `cs`, and a reword of `field` where the two texts differ.
pub open spec fn reworded(
    cs: Seq<ChangeView>,
    field: Seq<char>,
    from: Seq<char>,
    to: Seq<char>,
) -> Seq<ChangeView> {
    if from != to {
        cs.push(ChangeView::Reworded { field, from, to })
    } else {
        cs
    }
}

fn reword(changes: &mut Vec<Change>, field: &str, from: &str, to: &str)
    ensures
        final(changes).deep_view() == reworded(old(changes).deep_view(), field@, from@, to@),
{
    if !same_text(from, to) {
        put(
            changes,
            Change::Reworded {
                field: field.to_owned(),
                from: from.to_owned(),
                to: to.to_owned(),
            },
        );
    }
}

/// The name of a node kind.
pub open spec fn kind_name(k: Kind) -> Seq<char> {
    match k {
        Kind::Person => "person"@,
        Kind::System => "system"@,
        Kind::Container => "container"@,
        Kind::Component => "component"@,
        Kind::Symbol => "symbol"@,
    }
}

/// The name of a node kind.
pub fn kind_label(k: Kind) -> (r: &'static str)
    ensures
        r@ == kind_name(k),
{
    match k {
        Kind::Person => "person",
        Kind::System => "system",
        Kind::Container => "container",
        Kind::Component => "component",
        Kind::Symbol => "symbol",
    }
}

/// `true` or `false`, in letters; an absent flag is off.
pub open spec fn flag_name(o: Option<bool>) -> Seq<char> {
    if o == Some(true) {
        "true"@
    } else {
        "false"@
    }
}

fn flag_label(o: &Option<bool>) -> (r: &'static str)
    ensures
        r@ == flag_name(*o),
{
    if is_on(o) {
        "true"
    } else {
        "false"
    }
}

/// An element that can be compared with its other version.
pub trait Compared: Modelled {
    /// The change from one version of the element called `id` to another; an
    /// absent version stands for an element that is not there.
    spec fn change_of(id: Seq<char>, prev: Option<Self::V>, next: Option<Self::V>) -> Option<
        ElementChangeView,
    >;

    /// The change from one version of the element called `id` to another.
    fn change(id: &str, prev: Option<&Self>, next: Option<&Self>) -> (r: Option<ElementChange>)
        ensures
            r.deep_view() == Self::change_of(id@, ref_view(prev), ref_view(next)),
    ;

    /// Nothing changes between a version and itself, and a recorded change is
    /// never an empty one.
    proof fn lemma_change(id: Seq<char>, prev: Option<Self::V>, next: Option<Self::V>)
        ensures
            prev == next ==> Self::change_of(id, prev, next) is None,
            Self::change_of(id, prev, next) is Some ==> Self::change_of(
                id,
                prev,
                next,
            )->0.changes.len() > 0,
    ;
}

/// The model of what an optional reference points at.
pub open spec fn ref_view<T: DeepView + ?Sized>(o: Option<&T>) -> Option<T::V> {
    match o {
        Some(x) => Some(x.deep_view()),
        None => None,
    }
}

/// The divergences of a node, in the order in which they are reported.
pub open spec fn node_changes(prev: NodeView, n: NodeView) -> Seq<ChangeView> {
    let c0: Seq<ChangeView> = if prev.parent_id != n.parent_id {
        seq![ChangeView::Moved { from: prev.parent_id, to: n.parent_id }]
    } else {
        Seq::empty()
    };
    let c1 = reworded(c0, "name"@, prev.name, n.name);
    let c2 = reworded(c1, "technology"@, or_empty(prev.technology), or_empty(n.technology));
    let c3 = reworded(c2, "description"@, or_empty(prev.description), or_empty(n.description));
    let c4 = reworded(
        c3,
        "directives"@,
        directive_lines(prev.directives),
        directive_lines(n.directives),
    );
    let c5 = reworded(c4, "kind"@, kind_name(prev.kind), kind_name(n.kind));
    reworded(c5, "external"@, flag_name(prev.external), flag_name(n.external))
}

/// The record of an element's changes, if there are any.
pub open spec fn record(
    kind: ElementKind,
    id: Seq<char>,
    owner: Option<Seq<char>>,
    label: Seq<char>,
    ends: Option<(Seq<char>, Seq<char>)>,
    changes: Seq<ChangeView>,
) -> Option<ElementChangeView> {
    if changes.len() == 0 {
        None
    } else {
        Some(
            ElementChangeView {
                kind,
                id,
                owner_id: owner,
                label,
                from: match ends {
                    Some(e) => Some(e.0),
                    None => None,
                },
                to: match ends {
                    Some(e) => Some(e.1),
                    None => None,
                },
                changes,
            },
        )
    }
}

fn recorded(
    kind: ElementKind,
    id: &str,
    owner: Option<String>,
    label: &str,
    ends: Option<(String, String)>,
    changes: Vec<Change>,
) -> (r: Option<ElementChange>)
    ensures
        r.deep_view() == record(
            kind,
            id@,
            owner.deep_view(),
            label@,
            match ends {
                Some(e) => Some((e.0@, e.1@)),
                None => None,
            },
            changes.deep_view(),
        ),
{
    if changes.len() == 0 {
        None
    } else {
        let (from, to) = match ends {
            Some((a, b)) => (Some(a), Some(b)),
            None => (None, None),
        };
        Some(
            ElementChange {
                kind,
                id: id.to_owned(),
                owner_id: owner,
                label: label.to_owned(),
                from,
                to,
                changes,
            },
        )
    }
}

fn just(c: Change) -> (r: Vec<Change>)
    ensures
        r.deep_view() == seq![c.deep_view()],
{
    let mut v = fresh();
    put(&mut v, c);
    assert(v.deep_view() =~= seq![c.deep_view()]);
    v
}

impl Compared for Node {
    open spec fn change_of(id: Seq<char>, prev: Option<NodeView>, next: Option<NodeView>) -> Option<
        ElementChangeView,
    > {
        match (prev, next) {
            (Some(p), Some(n)) => record(
                ElementKind::Node,
                id,
                None,
                n.name,
                None,
                node_changes(p, n),
            ),
            (None, Some(n)) => record(
                ElementKind::Node,
                id,
                None,
                n.name,
                None,
                seq![ChangeView::Added],
            ),
            (Some(p), None) => record(
                ElementKind::Node,
                id,
                None,
                p.name,
                None,
                seq![ChangeView::Deleted],
            ),
            (None, None) => None,
        }
    }

    fn change(id: &str, prev: Option<&Self>, next: Option<&Self>) -> (r: Option<ElementChange>) {
        match (prev, next) {
            (Some(p), Some(n)) => {
                let mut cs: Vec<Change> = fresh();
                if !p.parent_id.same(&n.parent_id) {
                    put(
                        &mut cs,
                        Change::Moved { from: p.parent_id.dup(), to: n.parent_id.dup() },
                    );
                }
                proof {
                    let pv = p.deep_view();
                    let nv = n.deep_view();
                    assert(cs.deep_view() =~= if pv.parent_id != nv.parent_id {
                        seq![ChangeView::Moved { from: pv.parent_id, to: nv.parent_id }]
                    } else {
                        Seq::empty()
                    });
                }
                reword(&mut cs, "name", p.name.as_str(), n.name.as_str());
                reword(
                    &mut cs,
                    "technology",
                    text_or_empty(&p.technology).as_str(),
                    text_or_empty(&n.technology).as_str(),
                );
                reword(
                    &mut cs,
                    "description",
                    text_or_empty(&p.description).as_str(),
                    text_or_empty(&n.description).as_str(),
                );
                reword(
                    &mut cs,
                    "directives",
                    directives_rendered(&p.directives).as_str(),
                    directives_rendered(&n.directives).as_str(),
                );
                reword(&mut cs, "kind", kind_label(p.kind), kind_label(n.kind));
                reword(&mut cs, "external", flag_label(&p.external), flag_label(&n.external));
                recorded(ElementKind::Node, id, None, n.name.as_str(), None, cs)
            },
            (None, Some(n)) => recorded(
                ElementKind::Node,
                id,
                None,
                n.name.as_str(),
                None,
                just(Change::Added),
            ),
            (Some(p), None) => recorded(
                ElementKind::Node,
                id,
                None,
                p.name.as_str(),
                None,
                just(Change::Deleted),
            ),
            (None, None) => None,
        }
    }

    proof fn lemma_change(id: Seq<char>, prev: Option<Self::V>, next: Option<Self::V>) {
    }
}

/// The divergences of a link.
pub open spec fn link_changes(prev: LinkView, l: LinkView) -> Seq<ChangeView> {
    let c0: Seq<ChangeView> = if prev.src != l.src || prev.dst != l.dst {
        seq![
            ChangeView::Repointed {
                src_from: prev.src,
                src_to: l.src,
                dst_from: prev.dst,
                dst_to: l.dst,
            },
        ]
    } else {
        Seq::empty()
    };
    let c1 = reworded(c0, "label"@, prev.label, l.label);
    reworded(c1, "method"@, or_empty(prev.method), or_empty(l.method))
}

impl Compared for Link {
    open spec fn change_of(id: Seq<char>, prev: Option<LinkView>, next: Option<LinkView>) -> Option<
        ElementChangeView,
    > {
        match (prev, next) {
            (Some(p), Some(l)) => record(
                ElementKind::Link,
                id,
                None,
                l.label,
                Some((l.src, l.dst)),
                link_changes(p, l),
            ),
            (None, Some(l)) => record(
                ElementKind::Link,
                id,
                None,
                l.label,
                Some((l.src, l.dst)),
                seq![ChangeView::Added],
            ),
            (Some(p), None) => record(
                ElementKind::Link,
                id,
                None,
                p.label,
                Some((p.src, p.dst)),
                seq![ChangeView::Deleted],
            ),
            (None, None) => None,
        }
    }

    fn change(id: &str, prev: Option<&Self>, next: Option<&Self>) -> (r: Option<ElementChange>) {
        match (prev, next) {
            (Some(p), Some(l)) => {
                let mut cs: Vec<Change> = fresh();
                if !p.src.same(&l.src) || !p.dst.same(&l.dst) {
                    put(
                        &mut cs,
                        Change::Repointed {
                            src_from: p.src.dup(),
                            src_to: l.src.dup(),
                            dst_from: p.dst.dup(),
                            dst_to: l.dst.dup(),
                        },
                    );
                }
                proof {
                    let pv = p.deep_view();
                    let lv = l.deep_view();
                    assert(cs.deep_view() =~= if pv.src != lv.src || pv.dst != lv.dst {
                        seq![
                            ChangeView::Repointed {
                                src_from: pv.src,
                                src_to: lv.src,
                                dst_from: pv.dst,
                                dst_to: lv.dst,
                            },
                        ]
                    } else {
                        Seq::empty()
                    });
                }
                reword(&mut cs, "label", p.label.as_str(), l.label.as_str());
                reword(
                    &mut cs,
                    "method",
                    text_or_empty(&p.method).as_str(),
                    text_or_empty(&l.method).as_str(),
                );
                recorded(
                    ElementKind::Link,
                    id,
                    None,
                    l.label.as_str(),
                    Some((l.src.dup(), l.dst.dup())),
                    cs,
                )
            },
            (None, Some(l)) => recorded(
                ElementKind::Link,
                id,
                None,
                l.label.as_str(),
                Some((l.src.dup(), l.dst.dup())),
                just(Change::Added),
            ),
            (Some(p), None) => recorded(
                ElementKind::Link,
                id,
                None,
                p.label.as_str(),
                Some((p.src.dup(), p.dst.dup())),
                just(Change::Deleted),
            ),
            (None, None) => None,
        }
    }

    proof fn lemma_change(id: Seq<char>, prev: Option<Self::V>, next: Option<Self::V>) {
    }
}

/// The divergences of a claim, its host included.
pub open spec fn resp_changes(prev: OwnedRespView, r: OwnedRespView) -> Seq<ChangeView> {
    let c0: Seq<ChangeView> = if prev.owner_id != r.owner_id {
        seq![ChangeView::Moved { from: Some(prev.owner_id), to: Some(r.owner_id) }]
    } else {
        Seq::empty()
    };
    let c1 = reworded(c0, "title"@, or_empty(prev.resp.title), or_empty(r.resp.title));
    let c2 = reworded(c1, "statement"@, prev.resp.statement, r.resp.statement);
    let c3 = reworded(
        c2,
        "directives"@,
        directive_lines(prev.resp.directives),
        directive_lines(r.resp.directives),
    );
    reworded(c3, "cites"@, joined(prev.resp.cites, ", "@), joined(r.resp.cites, ", "@))
}

impl Compared for OwnedResp {
    open spec fn change_of(
        id: Seq<char>,
        prev: Option<OwnedRespView>,
        next: Option<OwnedRespView>,
    ) -> Option<ElementChangeView> {
        match (prev, next) {
            (Some(p), Some(r)) => record(
                ElementKind::Responsibility,
                id,
                Some(r.owner_id),
                r.resp.statement,
                None,
                resp_changes(p, r),
            ),
            (None, Some(r)) => record(
                ElementKind::Responsibility,
                id,
                Some(r.owner_id),
                r.resp.statement,
                None,
                seq![ChangeView::Added],
            ),
            (Some(p), None) => record(
                ElementKind::Responsibility,
                id,
                Some(p.owner_id),
                p.resp.statement,
                None,
                seq![ChangeView::Deleted],
            ),
            (None, None) => None,
        }
    }

    fn change(id: &str, prev: Option<&Self>, next: Option<&Self>) -> (r: Option<ElementChange>) {
        match (prev, next) {
            (Some(p), Some(r)) => {
                let mut cs: Vec<Change> = fresh();
                if !p.owner_id.same(&r.owner_id) {
                    put(
                        &mut cs,
                        Change::Moved {
                            from: Some(p.owner_id.dup()),
                            to: Some(r.owner_id.dup()),
                        },
                    );
                }
                proof {
                    let pv = p.deep_view();
                    let rv = r.deep_view();
                    assert(cs.deep_view() =~= if pv.owner_id != rv.owner_id {
                        seq![ChangeView::Moved { from: Some(pv.owner_id), to: Some(rv.owner_id) }]
                    } else {
                        Seq::empty()
                    });
                }
                reword(
                    &mut cs,
                    "title",
                    text_or_empty(&p.resp.title).as_str(),
                    text_or_empty(&r.resp.title).as_str(),
                );
                reword(&mut cs, "statement", p.resp.statement.as_str(), r.resp.statement.as_str());
                reword(
                    &mut cs,
                    "directives",
                    directives_rendered(&p.resp.directives).as_str(),
                    directives_rendered(&r.resp.directives).as_str(),
                );
                reword(
                    &mut cs,
                    "cites",
                    join(&p.resp.cites, ", ").as_str(),
                    join(&r.resp.cites, ", ").as_str(),
                );
                recorded(
                    ElementKind::Responsibility,
                    id,
                    Some(r.owner_id.dup()),
                    r.resp.statement.as_str(),
                    None,
                    cs,
                )
            },
            (None, Some(r)) => recorded(
                ElementKind::Responsibility,
                id,
                Some(r.owner_id.dup()),
                r.resp.statement.as_str(),
                None,
                just(Change::Added),
            ),
            (Some(p), None) => recorded(
                ElementKind::Responsibility,
                id,
                Some(p.owner_id.dup()),
                p.resp.statement.as_str(),
                None,
                just(Change::Deleted),
            ),
            (None, None) => None,
        }
    }

    proof fn lemma_change(id: Seq<char>, prev: Option<Self::V>, next: Option<Self::V>) {
    }
}

impl Compared for OwnedProp {
    open spec fn change_of(
        id: Seq<char>,
        prev: Option<OwnedPropView>,
        next: Option<OwnedPropView>,
    ) -> Option<ElementChangeView> {
        match (prev, next) {
            (Some(p), Some(n)) => record(
                ElementKind::Property,
                id,
                Some(n.owner_id),
                id,
                None,
                reworded(
                    Seq::empty(),
                    "description"@,
                    p.prop.description,
                    n.prop.description,
                ),
            ),
            (None, Some(n)) => record(
                ElementKind::Property,
                id,
                Some(n.owner_id),
                id,
                None,
                seq![ChangeView::Added],
            ),
            (Some(p), None) => record(
                ElementKind::Property,
                id,
                Some(p.owner_id),
                id,
                None,
                seq![ChangeView::Deleted],
            ),
            (None, None) => None,
        }
    }

    fn change(id: &str, prev: Option<&Self>, next: Option<&Self>) -> (r: Option<ElementChange>) {
        match (prev, next) {
            (Some(p), Some(n)) => {
                let mut cs: Vec<Change> = fresh();
                reword(
                    &mut cs,
                    "description",
                    p.prop.description.as_str(),
                    n.prop.description.as_str(),
                );
                recorded(ElementKind::Property, id, Some(n.owner_id.dup()), id, None, cs)
            },
            (None, Some(n)) => recorded(
                ElementKind::Property,
                id,
                Some(n.owner_id.dup()),
                id,
                None,
                just(Change::Added),
            ),
            (Some(p), None) => recorded(
                ElementKind::Property,
                id,
                Some(p.owner_id.dup()),
                id,
                None,
                just(Change::Deleted),
            ),
            (None, None) => None,
        }
    }

    proof fn lemma_change(id: Seq<char>, prev: Option<Self::V>, next: Option<Self::V>) {
    }
}

/// What a group sits under: its parent group, or else the node it is anchored to.
pub open spec fn group_anchor(g: GroupView) -> Option<Seq<char>> {
    match g.parent_group_id {
        Some(p) => Some(p),
        None => g.parent_node_id,
    }
}

fn group_owner(g: &Group) -> (r: Option<String>)
    ensures
        r.deep_view() == group_anchor(g.deep_view()),
{
    match &g.parent_group_id {
        Some(p) => Some(p.clone()),
        None => g.parent_node_id.dup(),
    }
}

/// The members of `a` that are not in `b`, in order.
pub open spec fn without(a: Seq<Seq<char>>, b: Seq<Seq<char>>) -> Seq<Seq<char>>
    decreases a.len(),
{
    if a.len() == 0 {
        Seq::empty()
    } else if b.contains(a.last()) {
        without(a.drop_last(), b)
    } else {
        without(a.drop_last(), b).push(a.last())
    }
}

/// Taking out of `a` what `b` holds leaves nothing when `b` holds all of it.
pub proof fn lemma_without_self(a: Seq<Seq<char>>, b: Seq<Seq<char>>)
    requires
        forall|i: int| 0 <= i < a.len() ==> b.contains(#[trigger] a[i]),
    ensures
        without(a, b).len() == 0,
    decreases a.len(),
{
    if a.len() > 0 {
        assert(b.contains(a[a.len() - 1]));
        assert forall|i: int| 0 <= i < a.len() - 1 implies b.contains(
            #[trigger] a.drop_last()[i],
        ) by {
            assert(b.contains(a[i]));
        }
        lemma_without_self(a.drop_last(), b);
    }
}

/// The members of `a` that are not in `b`, in order.
pub fn minus(a: &Vec<String>, b: &Vec<String>) -> (r: Vec<String>)
    ensures
        r.deep_view() == without(a.deep_view(), b.deep_view()),
{
    let mut out: Vec<String> = fresh();
    let mut i: usize = 0;
    let ghost av = a.deep_view();
    assert(av.take(0) =~= Seq::<Seq<char>>::empty());
    while i < a.len()
        invariant
            i <= a@.len(),
            av == a.deep_view(),
            out.deep_view() == without(av.take(i as int), b.deep_view()),
        decreases a@.len() - i,
    {
        let m = at(a, i);
        proof {
            assert(av.take(i + 1).drop_last() =~= av.take(i as int));
        }
        if !holds(b, m.as_str()) {
            put(&mut out, m.clone());
        }
        i += 1;
    }
    assert(av.take(av.len() as int) =~= av);
    out
}

/// The divergences of a group.
pub open spec fn group_changes(prev: GroupView, g: GroupView) -> Seq<ChangeView> {
    let c0: Seq<ChangeView> = if group_anchor(prev) != group_anchor(g) {
        seq![ChangeView::Moved { from: group_anchor(prev), to: group_anchor(g) }]
    } else {
        Seq::empty()
    };
    let c1 = reworded(c0, "name"@, prev.name, g.name);
    let c2 = reworded(c1, "description"@, or_empty(prev.description), or_empty(g.description));
    let added = without(g.member_ids, prev.member_ids);
    let removed = without(prev.member_ids, g.member_ids);
    if added.len() > 0 || removed.len() > 0 {
        c2.push(ChangeView::MembersChanged { added, removed })
    } else {
        c2
    }
}

impl Compared for Group {
    open spec fn change_of(
        id: Seq<char>,
        prev: Option<GroupView>,
        next: Option<GroupView>,
    ) -> Option<ElementChangeView> {
        match (prev, next) {
            (Some(p), Some(g)) => record(
                ElementKind::Group,
                id,
                None,
                g.name,
                None,
                group_changes(p, g),
            ),
            (None, Some(g)) => record(
                ElementKind::Group,
                id,
                None,
                g.name,
                None,
                seq![ChangeView::Added],
            ),
            (Some(p), None) => record(
                ElementKind::Group,
                id,
                None,
                p.name,
                None,
                seq![ChangeView::Deleted],
            ),
            (None, None) => None,
        }
    }

    fn change(id: &str, prev: Option<&Self>, next: Option<&Self>) -> (r: Option<ElementChange>) {
        match (prev, next) {
            (Some(p), Some(g)) => {
                let mut cs: Vec<Change> = fresh();
                let was = group_owner(p);
                let is = group_owner(g);
                if !was.same(&is) {
                    put(&mut cs, Change::Moved { from: was.dup(), to: is.dup() });
                }
                proof {
                    let pa = group_anchor(p.deep_view());
                    let ga = group_anchor(g.deep_view());
                    assert(cs.deep_view() =~= if pa != ga {
                        seq![ChangeView::Moved { from: pa, to: ga }]
                    } else {
                        Seq::empty()
                    });
                }
                reword(&mut cs, "name", p.name.as_str(), g.name.as_str());
                reword(
                    &mut cs,
                    "description",
                    text_or_empty(&p.description).as_str(),
                    text_or_empty(&g.description).as_str(),
                );
                let added = minus(&g.member_ids, &p.member_ids);
                let removed = minus(&p.member_ids, &g.member_ids);
                if added.len() > 0 || removed.len() > 0 {
                    put(&mut cs, Change::MembersChanged { added, removed });
                }
                recorded(ElementKind::Group, id, None, g.name.as_str(), None, cs)
            },
            (None, Some(g)) => recorded(
                ElementKind::Group,
                id,
                None,
                g.name.as_str(),
                None,
                just(Change::Added),
            ),
            (Some(p), None) => recorded(
                ElementKind::Group,
                id,
                None,
                p.name.as_str(),
                None,
                just(Change::Deleted),
            ),
            (None, None) => None,
        }
    }

    proof fn lemma_change(id: Seq<char>, prev: Option<Self::V>, next: Option<Self::V>) {
        if prev is Some && next is Some && prev == next {
            lemma_without_self(prev->0.member_ids, prev->0.member_ids);
        }
    }
}

// ---- walking two indexes --------------------------------------------------------

/// The records among `s`, in order.
pub open spec fn collected(s: Seq<Option<ElementChangeView>>) -> Seq<ElementChangeView>
    decreases s.len(),
{
    if s.len() == 0 {
        Seq::empty()
    } else {
        match s.last() {
            Some(c) => collected(s.drop_last()).push(c),
            None => collected(s.drop_last()),
        }
    }
}

/// The value at `k`, if there is one.
pub open spec fn lookup<A>(m: Map<Seq<char>, A>, k: Seq<char>) -> Option<A> {
    if m.contains_key(k) {
        Some(m[k])
    } else {
        None
    }
}

/// What happened to each element of `t`, in ascending order of id.
pub open spec fn kept_or_new<T: Compared>(
    f: Map<Seq<char>, T::V>,
    t: Map<Seq<char>, T::V>,
) -> Seq<ElementChangeView> {
    let ks = ascending(t.dom());
    collected(
        Seq::new(ks.len(), |i: int| T::change_of(ks[i], lookup(f, ks[i]), lookup(t, ks[i]))),
    )
}

/// The elements of `f` that are not in `t`, in ascending order of id.
pub open spec fn gone<T: Compared>(f: Map<Seq<char>, T::V>, t: Map<Seq<char>, T::V>) -> Seq<
    ElementChangeView,
> {
    let ks = ascending(f.dom());
    collected(
        Seq::new(
            ks.len(),
            |i: int|
                if t.contains_key(ks[i]) {
                    None
                } else {
                    T::change_of(ks[i], lookup(f, ks[i]), None)
                },
        ),
    )
}

fn push_kept_or_new<T: Compared>(f: &StrMap<T>, t: &StrMap<T>, out: &mut Vec<ElementChange>)
    ensures
        final(out).deep_view() == old(out).deep_view() + kept_or_new::<T>(
            f.deep_view(),
            t.deep_view(),
        ),
{
    let ghost fm = f.deep_view();
    let ghost tm = t.deep_view();
    let ghost ks = ascending(tm.dom());
    let ghost all = Seq::new(
        ks.len(),
        |i: int| T::change_of(ks[i], lookup(fm, ks[i]), lookup(tm, ks[i])),
    );
    let n: usize = t.len();
    let mut i: usize = 0;
    let ghost start = out.deep_view();
    assert(all.take(0) =~= Seq::<Option<ElementChangeView>>::empty());
    assert(start + collected(all.take(0)) =~= start);
    while i < n
        invariant
            i <= n,
            n == ks.len(),
            ks == ascending(tm.dom()),
            fm == f.deep_view(),
            tm == t.deep_view(),
            all == Seq::new(
                ks.len(),
                |i: int| T::change_of(ks[i], lookup(fm, ks[i]), lookup(tm, ks[i])),
            ),
            out.deep_view() == start + collected(all.take(i as int)),
        decreases n - i,
    {
        let id = t.key_at(i);
        let c = T::change(id.as_str(), f.get(id.as_str()), Some(t.value_at(i)));
        proof {
            assert(all.take(i + 1).drop_last() =~= all.take(i as int));
            assert(all.take(i + 1).last() == c.deep_view());
        }
        match c {
            Some(c) => {
                put(out, c);
                assert(out.deep_view() =~= start + collected(all.take(i + 1)));
            },
            None => {},
        }
        i += 1;
    }
    assert(all.take(n as int) =~= all);
}

fn push_gone<T: Compared>(f: &StrMap<T>, t: &StrMap<T>, out: &mut Vec<ElementChange>)
    ensures
        final(out).deep_view() == old(out).deep_view() + gone::<T>(f.deep_view(), t.deep_view()),
{
    let ghost fm = f.deep_view();
    let ghost tm = t.deep_view();
    let ghost ks = ascending(fm.dom());
    let ghost all = Seq::new(
        ks.len(),
        |i: int|
            if tm.contains_key(ks[i]) {
                None
            } else {
                T::change_of(ks[i], lookup(fm, ks[i]), None)
            },
    );
    let n: usize = f.len();
    let mut i: usize = 0;
    let ghost start = out.deep_view();
    assert(all.take(0) =~= Seq::<Option<ElementChangeView>>::empty());
    assert(start + collected(all.take(0)) =~= start);
    while i < n
        invariant
            i <= n,
            n == ks.len(),
            ks == ascending(fm.dom()),
            fm == f.deep_view(),
            tm == t.deep_view(),
            all == Seq::new(
                ks.len(),
                |i: int|
                    if tm.contains_key(ks[i]) {
                        None
                    } else {
                        T::change_of(ks[i], lookup(fm, ks[i]), None)
                    },
            ),
            out.deep_view() == start + collected(all.take(i as int)),
        decreases n - i,
    {
        let id = f.key_at(i);
        proof {
            assert(all.take(i + 1).drop_last() =~= all.take(i as int));
            assert(all.take(i + 1).last() == all[i as int]);
        }
        if !t.contains_key(id.as_str()) {
            match T::change(id.as_str(), Some(f.value_at(i)), None) {
                Some(c) => {
                    put(out, c);
                    assert(out.deep_view() =~= start + collected(all.take(i + 1)));
                },
                None => {},
            }
        }
        i += 1;
    }
    assert(all.take(n as int) =~= all);
}

// ---- indexes ------------------------------------------------------------------

/// The nodes by id; of two with one id the later counts.
pub open spec fn node_index(ns: Seq<NodeView>) -> Map<Seq<char>, NodeView>
    decreases ns.len(),
{
    if ns.len() == 0 {
        Map::empty()
    } else {
        node_index(ns.drop_last()).insert(ns.last().id, ns.last())
    }
}

fn index_nodes(ns: &Vec<Node>) -> (r: StrMap<Node>)
    ensures
        r.deep_view() == node_index(ns.deep_view()),
{
    let mut r: StrMap<Node> = StrMap::new();
    let ghost vs = ns.deep_view();
    let mut i: usize = 0;
    assert(vs.take(0) =~= Seq::<NodeView>::empty());
    while i < ns.len()
        invariant
            i <= ns@.len(),
            vs == ns.deep_view(),
            r.deep_view() == node_index(vs.take(i as int)),
        decreases ns@.len() - i,
    {
        let n = at(ns, i);
        proof {
            assert(vs.take(i + 1).drop_last() =~= vs.take(i as int));
        }
        r.insert(n.id.clone(), n.dup());
        i += 1;
    }
    assert(vs.take(vs.len() as int) =~= vs);
    r
}

/// The links by id; of two with one id the later counts.
pub open spec fn link_index(ls: Seq<LinkView>) -> Map<Seq<char>, LinkView>
    decreases ls.len(),
{
    if ls.len() == 0 {
        Map::empty()
    } else {
        link_index(ls.drop_last()).insert(ls.last().id, ls.last())
    }
}

fn index_links(ls: &Vec<Link>) -> (r: StrMap<Link>)
    ensures
        r.deep_view() == link_index(ls.deep_view()),
{
    let mut r: StrMap<Link> = StrMap::new();
    let ghost vs = ls.deep_view();
    let mut i: usize = 0;
    assert(vs.take(0) =~= Seq::<LinkView>::empty());
    while i < ls.len()
        invariant
            i <= ls@.len(),
            vs == ls.deep_view(),
            r.deep_view() == link_index(vs.take(i as int)),
        decreases ls@.len() - i,
    {
        let l = at(ls, i);
        proof {
            assert(vs.take(i + 1).drop_last() =~= vs.take(i as int));
        }
        r.insert(l.id.clone(), l.dup());
        i += 1;
    }
    assert(vs.take(vs.len() as int) =~= vs);
    r
}

/// The groups by id; of two with one id the later counts.
pub open spec fn group_index(gs: Seq<GroupView>) -> Map<Seq<char>, GroupView>
    decreases gs.len(),
{
    if gs.len() == 0 {
        Map::empty()
    } else {
        group_index(gs.drop_last()).insert(gs.last().id, gs.last())
    }
}

fn index_groups(gs: &Vec<Group>) -> (r: StrMap<Group>)
    ensures
        r.deep_view() == group_index(gs.deep_view()),
{
    let mut r: StrMap<Group> = StrMap::new();
    let ghost vs = gs.deep_view();
    let mut i: usize = 0;
    assert(vs.take(0) =~= Seq::<GroupView>::empty());
    while i < gs.len()
        invariant
            i <= gs@.len(),
            vs == gs.deep_view(),
            r.deep_view() == group_index(vs.take(i as int)),
        decreases gs@.len() - i,
    {
        let g = at(gs, i);
        proof {
            assert(vs.take(i + 1).drop_last() =~= vs.take(i as int));
        }
        r.insert(g.id.clone(), g.dup());
        i += 1;
    }
    assert(vs.take(vs.len() as int) =~= vs);
    r
}

/// `m` and the claims `rs` of one host, by claim id.
pub open spec fn with_claims(
    m: Map<Seq<char>, OwnedRespView>,
    owner: Seq<char>,
    rs: Seq<ResponsibilityView>,
) -> Map<Seq<char>, OwnedRespView>
    decreases rs.len(),
{
    if rs.len() == 0 {
        m
    } else {
        with_claims(m, owner, rs.drop_last()).insert(
            rs.last().id,
            OwnedRespView { owner_id: owner, resp: rs.last() },
        )
    }
}

fn add_claims(m: &mut StrMap<OwnedResp>, owner: &str, rs: &Vec<Responsibility>)
    ensures
        final(m).deep_view() == with_claims(old(m).deep_view(), owner@, rs.deep_view()),
{
    let ghost vs = rs.deep_view();
    let ghost m0 = m.deep_view();
    let mut i: usize = 0;
    assert(vs.take(0) =~= Seq::<ResponsibilityView>::empty());
    while i < rs.len()
        invariant
            i <= rs@.len(),
            vs == rs.deep_view(),
            m.deep_view() == with_claims(m0, owner@, vs.take(i as int)),
        decreases rs@.len() - i,
    {
        let x = at(rs, i);
        proof {
            assert(vs.take(i + 1).drop_last() =~= vs.take(i as int));
        }
        m.insert(x.id.clone(), OwnedResp { owner_id: owner.to_owned(), resp: x.dup() });
        i += 1;
    }
    assert(vs.take(vs.len() as int) =~= vs);
}

/// The claims of the nodes, by claim id.
pub open spec fn node_claims(ns: Seq<NodeView>) -> Map<Seq<char>, OwnedRespView>
    decreases ns.len(),
{
    if ns.len() == 0 {
        Map::empty()
    } else {
        with_claims(node_claims(ns.drop_last()), ns.last().id, ns.last().responsibilities)
    }
}

/// `m` and the claims of the groups.
pub open spec fn group_claims(m: Map<Seq<char>, OwnedRespView>, gs: Seq<GroupView>) -> Map<
    Seq<char>,
    OwnedRespView,
>
    decreases gs.len(),
{
    if gs.len() == 0 {
        m
    } else {
        with_claims(group_claims(m, gs.drop_last()), gs.last().id, gs.last().responsibilities)
    }
}

/// Every claim of a model with its host, by claim id: those of the nodes, then
/// those of the groups; of two with one id the later counts.
pub open spec fn claim_index(m: ScryModelView) -> Map<Seq<char>, OwnedRespView> {
    group_claims(node_claims(m.nodes), m.groups)
}

fn index_responsibilities(model: &ScryModel) -> (r: StrMap<OwnedResp>)
    ensures
        r.deep_view() == claim_index(model.deep_view()),
{
    let mut r: StrMap<OwnedResp> = StrMap::new();
    let ghost ns = model.nodes.deep_view();
    let mut i: usize = 0;
    assert(ns.take(0) =~= Seq::<NodeView>::empty());
    while i < model.nodes.len()
        invariant
            i <= model.nodes@.len(),
            ns == model.nodes.deep_view(),
            r.deep_view() == node_claims(ns.take(i as int)),
        decreases model.nodes@.len() - i,
    {
        let n = at(&model.nodes, i);
        proof {
            assert(ns.take(i + 1).drop_last() =~= ns.take(i as int));
        }
        add_claims(&mut r, n.id.as_str(), &n.responsibilities);
        i += 1;
    }
    assert(ns.take(ns.len() as int) =~= ns);
    let ghost m0 = r.deep_view();
    let ghost gs = model.groups.deep_view();
    let mut j: usize = 0;
    assert(gs.take(0) =~= Seq::<GroupView>::empty());
    while j < model.groups.len()
        invariant
            j <= model.groups@.len(),
            gs == model.groups.deep_view(),
            r.deep_view() == group_claims(m0, gs.take(j as int)),
        decreases model.groups@.len() - j,
    {
        let g = at(&model.groups, j);
        proof {
            assert(gs.take(j + 1).drop_last() =~= gs.take(j as int));
        }
        add_claims(&mut r, g.id.as_str(), &g.responsibilities);
        j += 1;
    }
    assert(gs.take(gs.len() as int) =~= gs);
    r
}

/// The properties `ps` of one host, by label, over those already in `m`.
pub open spec fn with_props(
    m: Map<Seq<char>, OwnedPropView>,
    owner: Seq<char>,
    ps: Seq<SchemaPropertyView>,
) -> Map<Seq<char>, OwnedPropView>
    decreases ps.len(),
{
    if ps.len() == 0 {
        m
    } else {
        with_props(m, owner, ps.drop_last()).insert(
            ps.last().label,
            OwnedPropView { owner_id: owner, prop: ps.last() },
        )
    }
}

/// The map at `k`, or the empty map.
pub open spec fn inner<A>(m: Map<Seq<char>, Map<Seq<char>, A>>, k: Seq<char>) -> Map<Seq<char>, A> {
    if m.contains_key(k) {
        m[k]
    } else {
        Map::empty()
    }
}

/// The properties of the nodes by host and label; of two the later counts.
pub open spec fn prop_index(ns: Seq<NodeView>) -> Map<Seq<char>, Map<Seq<char>, OwnedPropView>>
    decreases ns.len(),
{
    if ns.len() == 0 {
        Map::empty()
    } else {
        let m = prop_index(ns.drop_last());
        let n = ns.last();
        m.insert(n.id, with_props(inner(m, n.id), n.id, n.properties))
    }
}

fn inner_map(m: &StrMap<StrMap<OwnedProp>>, k: &str) -> (r: StrMap<OwnedProp>)
    ensures
        r.deep_view() == inner(m.deep_view(), k@),
{
    match m.get(k) {
        Some(x) => x.dup(),
        None => StrMap::new(),
    }
}

fn index_properties(ns: &Vec<Node>) -> (r: StrMap<StrMap<OwnedProp>>)
    ensures
        r.deep_view() == prop_index(ns.deep_view()),
{
    let mut r: StrMap<StrMap<OwnedProp>> = StrMap::new();
    let ghost vs = ns.deep_view();
    let mut i: usize = 0;
    assert(vs.take(0) =~= Seq::<NodeView>::empty());
    while i < ns.len()
        invariant
            i <= ns@.len(),
            vs == ns.deep_view(),
            r.deep_view() == prop_index(vs.take(i as int)),
        decreases ns@.len() - i,
    {
        let n = at(ns, i);
        proof {
            assert(vs.take(i + 1).drop_last() =~= vs.take(i as int));
        }
        let mut of_n = inner_map(&r, n.id.as_str());
        let ghost m0 = of_n.deep_view();
        let ghost ps = n.properties.deep_view();
        let mut j: usize = 0;
        assert(ps.take(0) =~= Seq::<SchemaPropertyView>::empty());
        while j < n.properties.len()
            invariant
                j <= n.properties@.len(),
                ps == n.properties.deep_view(),
                of_n.deep_view() == with_props(m0, n.id@, ps.take(j as int)),
            decreases n.properties@.len() - j,
        {
            let p = at(&n.properties, j);
            proof {
                assert(ps.take(j + 1).drop_last() =~= ps.take(j as int));
            }
            of_n.insert(p.label.clone(), OwnedProp { owner_id: n.id.clone(), prop: p.dup() });
            j += 1;
        }
        assert(ps.take(ps.len() as int) =~= ps);
        r.insert(n.id.clone(), of_n);
        i += 1;
    }
    assert(vs.take(vs.len() as int) =~= vs);
    r
}

// ---- the diff -----------------------------------------------------------------

/// The lists of `s`, one after the other.
pub open spec fn flattened(s: Seq<Seq<ElementChangeView>>) -> Seq<ElementChangeView>
    decreases s.len(),
{
    if s.len() == 0 {
        Seq::empty()
    } else {
        flattened(s.drop_last()) + s.last()
    }
}

/// What happened to the properties: host by host, then label by label, in
/// ascending order; first those that are there, then those that are gone.
pub open spec fn prop_diff(
    f: Map<Seq<char>, Map<Seq<char>, OwnedPropView>>,
    t: Map<Seq<char>, Map<Seq<char>, OwnedPropView>>,
) -> Seq<ElementChangeView> {
    let tk = ascending(t.dom());
    let fk = ascending(f.dom());
    flattened(
        Seq::new(tk.len(), |i: int| kept_or_new::<OwnedProp>(inner(f, tk[i]), inner(t, tk[i]))),
    ) + flattened(Seq::new(fk.len(), |i: int| gone::<OwnedProp>(inner(f, fk[i]), inner(t, fk[i]))))
}

/// How `to` diverges from `from`: nodes, links, claims, properties, groups.
pub open spec fn diff_of(from: ScryModelView, to: ScryModelView) -> Seq<ElementChangeView> {
    let fn_ = node_index(from.nodes);
    let tn = node_index(to.nodes);
    let fl = link_index(from.links);
    let tl = link_index(to.links);
    let fc = claim_index(from);
    let tc = claim_index(to);
    let fg = group_index(from.groups);
    let tg = group_index(to.groups);
    kept_or_new::<Node>(fn_, tn) + gone::<Node>(fn_, tn) + kept_or_new::<Link>(fl, tl) + gone::<
        Link,
    >(fl, tl) + kept_or_new::<OwnedResp>(fc, tc) + gone::<OwnedResp>(fc, tc) + prop_diff(
        prop_index(from.nodes),
        prop_index(to.nodes),
    ) + kept_or_new::<Group>(fg, tg) + gone::<Group>(fg, tg)
}

fn push_prop_diff(from: &Vec<Node>, to: &Vec<Node>, out: &mut Vec<ElementChange>)
    ensures
        final(out).deep_view() == old(out).deep_view() + prop_diff(
            prop_index(from.deep_view()),
            prop_index(to.deep_view()),
        ),
{
    let f = index_properties(from);
    let t = index_properties(to);
    let ghost fm = f.deep_view();
    let ghost tm = t.deep_view();
    let ghost tk = ascending(tm.dom());
    let ghost fk = ascending(fm.dom());
    let ghost first = Seq::new(
        tk.len(),
        |i: int| kept_or_new::<OwnedProp>(inner(fm, tk[i]), inner(tm, tk[i])),
    );
    let ghost second = Seq::new(
        fk.len(),
        |i: int| gone::<OwnedProp>(inner(fm, fk[i]), inner(tm, fk[i])),
    );
    let ghost start = out.deep_view();
    let n: usize = t.len();
    let mut i: usize = 0;
    assert(first.take(0) =~= Seq::<Seq<ElementChangeView>>::empty());
    assert(start + flattened(first.take(0)) =~= start);
    while i < n
        invariant
            i <= n,
            n == tk.len(),
            tk == ascending(tm.dom()),
            fm == f.deep_view(),
            tm == t.deep_view(),
            first == Seq::new(
                tk.len(),
                |i: int| kept_or_new::<OwnedProp>(inner(fm, tk[i]), inner(tm, tk[i])),
            ),
            out.deep_view() == start + flattened(first.take(i as int)),
        decreases n - i,
    {
        let owner = t.key_at(i);
        let a = inner_map(&f, owner.as_str());
        push_kept_or_new(&a, t.value_at(i), out);
        proof {
            assert(first.take(i + 1).drop_last() =~= first.take(i as int));
            assert(first.take(i + 1).last() == first[i as int]);
            assert(out.deep_view() =~= start + flattened(first.take(i + 1)));
        }
        i += 1;
    }
    assert(first.take(n as int) =~= first);
    let ghost mid = out.deep_view();
    let m: usize = f.len();
    let mut j: usize = 0;
    assert(second.take(0) =~= Seq::<Seq<ElementChangeView>>::empty());
    assert(mid + flattened(second.take(0)) =~= mid);
    while j < m
        invariant
            j <= m,
            m == fk.len(),
            fk == ascending(fm.dom()),
            fm == f.deep_view(),
            tm == t.deep_view(),
            second == Seq::new(
                fk.len(),
                |i: int| gone::<OwnedProp>(inner(fm, fk[i]), inner(tm, fk[i])),
            ),
            out.deep_view() == mid + flattened(second.take(j as int)),
        decreases m - j,
    {
        let owner = f.key_at(j);
        let b = inner_map(&t, owner.as_str());
        push_gone(f.value_at(j), &b, out);
        proof {
            assert(second.take(j + 1).drop_last() =~= second.take(j as int));
            assert(second.take(j + 1).last() == second[j as int]);
            assert(out.deep_view() =~= mid + flattened(second.take(j + 1)));
        }
        j += 1;
    }
    assert(second.take(m as int) =~= second);
    assert(out.deep_view() =~= start + (flattened(first) + flattened(second)));
}

/// How `to` diverges from `from`. The plan is the divergence of the draft from
/// the committed model.
pub fn diff(from: &ScryModel, to: &ScryModel) -> (r: ModelDiff)
    ensures
        r.deep_view().changes == diff_of(from.deep_view(), to.deep_view()),
{
    let mut out: Vec<ElementChange> = fresh();
    let fn_ = index_nodes(&from.nodes);
    let tn = index_nodes(&to.nodes);
    push_kept_or_new(&fn_, &tn, &mut out);
    push_gone(&fn_, &tn, &mut out);
    let fl = index_links(&from.links);
    let tl = index_links(&to.links);
    push_kept_or_new(&fl, &tl, &mut out);
    push_gone(&fl, &tl, &mut out);
    let fc = index_responsibilities(from);
    let tc = index_responsibilities(to);
    push_kept_or_new(&fc, &tc, &mut out);
    push_gone(&fc, &tc, &mut out);
    push_prop_diff(&from.nodes, &to.nodes, &mut out);
    let fg = index_groups(&from.groups);
    let tg = index_groups(&to.groups);
    push_kept_or_new(&fg, &tg, &mut out);
    push_gone(&fg, &tg, &mut out);
    proof {
        let a = kept_or_new::<Node>(fn_.deep_view(), tn.deep_view());
        assert(Seq::<ElementChangeView>::empty() + a =~= a);
        assert(out.deep_view() =~= diff_of(from.deep_view(), to.deep_view()));
    }
    ModelDiff { changes: out }
}

// ---- pending work ---------------------------------------------------------------

/// Is there a node called `id` that awaits a verdict?
pub open spec fn vagrant_node(ns: Seq<NodeView>, id: Seq<char>) -> bool {
    exists|i: int|
        0 <= i < ns.len() && (#[trigger] ns[i]).id == id && ns[i].vagrant == Some(true)
}

/// Is there a claim called `id` among these that awaits a verdict?
pub open spec fn vagrant_claim(rs: Seq<ResponsibilityView>, id: Seq<char>) -> bool {
    exists|i: int|
        0 <= i < rs.len() && (#[trigger] rs[i]).id == id && rs[i].vagrant == Some(true)
}

/// Is there a property labelled `label` among these that awaits a verdict?
pub open spec fn vagrant_prop(ps: Seq<SchemaPropertyView>, label: Seq<char>) -> bool {
    exists|i: int|
        0 <= i < ps.len() && (#[trigger] ps[i]).label == label && ps[i].vagrant == Some(true)
}

/// Does some node or group hold a claim called `id` that awaits a verdict?
pub open spec fn vagrant_claim_anywhere(m: ScryModelView, id: Seq<char>) -> bool {
    (exists|i: int|
        0 <= i < m.nodes.len() && vagrant_claim((#[trigger] m.nodes[i]).responsibilities, id)) || (
    exists|i: int|
        0 <= i < m.groups.len() && vagrant_claim((#[trigger] m.groups[i]).responsibilities, id))
}

/// Does a node called `owner` hold a property `label` that awaits a verdict?
pub open spec fn vagrant_prop_of(
    ns: Seq<NodeView>,
    owner: Seq<char>,
    label: Seq<char>,
) -> bool {
    exists|i: int|
        0 <= i < ns.len() && (#[trigger] ns[i]).id == owner && vagrant_prop(
            ns[i].properties,
            label,
        )
}

/// Does the changed element await a drift verdict in the plan?
pub open spec fn awaits_verdict(planned: ScryModelView, ch: ElementChangeView) -> bool {
    match ch.kind {
        ElementKind::Node => vagrant_node(planned.nodes, ch.id),
        ElementKind::Responsibility => vagrant_claim_anywhere(planned, ch.id),
        ElementKind::Property => ch.owner_id is Some && vagrant_prop_of(
            planned.nodes,
            ch.owner_id->0,
            ch.id,
        ),
        ElementKind::Link => false,
        ElementKind::Group => false,
    }
}

/// The changes that do not await a verdict, in order.
pub open spec fn not_vagrant(
    planned: ScryModelView,
    cs: Seq<ElementChangeView>,
) -> Seq<ElementChangeView>
    decreases cs.len(),
{
    if cs.len() == 0 {
        Seq::empty()
    } else if awaits_verdict(planned, cs.last()) {
        not_vagrant(planned, cs.drop_last())
    } else {
        not_vagrant(planned, cs.drop_last()).push(cs.last())
    }
}

fn has_vagrant_claim(rs: &Vec<Responsibility>, id: &str) -> (r: bool)
    ensures
        r == vagrant_claim(rs.deep_view(), id@),
{
    let ghost vs = rs.deep_view();
    let mut i: usize = 0;
    while i < rs.len()
        invariant
            i <= rs@.len(),
            vs == rs.deep_view(),
            forall|j: int|
                0 <= j < i ==> !((#[trigger] vs[j]).id == id@ && vs[j].vagrant == Some(true)),
        decreases rs@.len() - i,
    {
        let x = at(rs, i);
        if same_text(x.id.as_str(), id) && is_on(&x.vagrant) {
            assert(vs[i as int].id == id@ && vs[i as int].vagrant == Some(true));
            return true;
        }
        i += 1;
    }
    false
}

fn has_vagrant_prop(ps: &Vec<SchemaProperty>, label: &str) -> (r: bool)
    ensures
        r == vagrant_prop(ps.deep_view(), label@),
{
    let ghost vs = ps.deep_view();
    let mut i: usize = 0;
    while i < ps.len()
        invariant
            i <= ps@.len(),
            vs == ps.deep_view(),
            forall|j: int|
                0 <= j < i ==> !((#[trigger] vs[j]).label == label@ && vs[j].vagrant == Some(
                    true,
                )),
        decreases ps@.len() - i,
    {
        let x = at(ps, i);
        if same_text(x.label.as_str(), label) && is_on(&x.vagrant) {
            assert(vs[i as int].label == label@ && vs[i as int].vagrant == Some(true));
            return true;
        }
        i += 1;
    }
    false
}

fn has_vagrant_node(ns: &Vec<Node>, id: &str) -> (r: bool)
    ensures
        r == vagrant_node(ns.deep_view(), id@),
{
    let ghost vs = ns.deep_view();
    let mut i: usize = 0;
    while i < ns.len()
        invariant
            i <= ns@.len(),
            vs == ns.deep_view(),
            forall|j: int|
                0 <= j < i ==> !((#[trigger] vs[j]).id == id@ && vs[j].vagrant == Some(true)),
        decreases ns@.len() - i,
    {
        let n = at(ns, i);
        if same_text(n.id.as_str(), id) && is_on(&n.vagrant) {
            assert(vs[i as int].id == id@ && vs[i as int].vagrant == Some(true));
            return true;
        }
        i += 1;
    }
    false
}

fn any_vagrant_claim(planned: &ScryModel, id: &str) -> (r: bool)
    ensures
        r == vagrant_claim_anywhere(planned.deep_view(), id@),
{
    let ghost ns = planned.deep_view().nodes;
    let ghost gs = planned.deep_view().groups;
    let mut i: usize = 0;
    while i < planned.nodes.len()
        invariant
            i <= planned.nodes@.len(),
            ns == planned.deep_view().nodes,
            forall|j: int|
                0 <= j < i ==> !vagrant_claim((#[trigger] ns[j]).responsibilities, id@),
        decreases planned.nodes@.len() - i,
    {
        let n = at(&planned.nodes, i);
        if has_vagrant_claim(&n.responsibilities, id) {
            assert(vagrant_claim(ns[i as int].responsibilities, id@));
            return true;
        }
        i += 1;
    }
    let mut k: usize = 0;
    while k < planned.groups.len()
        invariant
            k <= planned.groups@.len(),
            gs == planned.deep_view().groups,
            forall|j: int|
                0 <= j < k ==> !vagrant_claim((#[trigger] gs[j]).responsibilities, id@),
        decreases planned.groups@.len() - k,
    {
        let g = at(&planned.groups, k);
        if has_vagrant_claim(&g.responsibilities, id) {
            assert(vagrant_claim(gs[k as int].responsibilities, id@));
            return true;
        }
        k += 1;
    }
    false
}

fn any_vagrant_prop(ns: &Vec<Node>, owner: &str, label: &str) -> (r: bool)
    ensures
        r == vagrant_prop_of(ns.deep_view(), owner@, label@),
{
    let ghost vs = ns.deep_view();
    let mut i: usize = 0;
    while i < ns.len()
        invariant
            i <= ns@.len(),
            vs == ns.deep_view(),
            forall|j: int|
                0 <= j < i ==> !((#[trigger] vs[j]).id == owner@ && vagrant_prop(
                    vs[j].properties,
                    label@,
                )),
        decreases ns@.len() - i,
    {
        let n = at(ns, i);
        if same_text(n.id.as_str(), owner) && has_vagrant_prop(&n.properties, label) {
            assert(vs[i as int].id == owner@ && vagrant_prop(vs[i as int].properties, label@));
            return true;
        }
        i += 1;
    }
    false
}

fn is_vagrant_change(planned: &ScryModel, ch: &ElementChange) -> (r: bool)
    ensures
        r == awaits_verdict(planned.deep_view(), ch.deep_view()),
{
    match ch.kind {
        ElementKind::Node => has_vagrant_node(&planned.nodes, ch.id.as_str()),
        ElementKind::Responsibility => any_vagrant_claim(planned, ch.id.as_str()),
        ElementKind::Property => match &ch.owner_id {
            None => false,
            Some(owner) => any_vagrant_prop(&planned.nodes, owner.as_str(), ch.id.as_str()),
        },
        ElementKind::Link => false,
        ElementKind::Group => false,
    }
}

/// The changes that are not under one of the `binned` keys, in order.
pub open spec fn not_binned(cs: Seq<ElementChangeView>, binned: Seq<Seq<char>>) -> Seq<
    ElementChangeView,
>
    decreases cs.len(),
{
    if cs.len() == 0 {
        Seq::empty()
    } else if binned.contains(key_of(cs.last())) {
        not_binned(cs.drop_last(), binned)
    } else {
        not_binned(cs.drop_last(), binned).push(cs.last())
    }
}

/// The plan without the entries under the `binned` element keys: set aside, so
/// not work, yet still there for a restore.
pub fn open_plan_without(
    committed: &ScryModel,
    planned: &ScryModel,
    binned: &Vec<String>,
) -> (r: ModelDiff)
    ensures
        r.deep_view().changes == not_binned(
            diff_of(committed.deep_view(), planned.deep_view()),
            binned.deep_view(),
        ),
{
    let d = diff(committed, planned);
    let ghost all = d.changes.deep_view();
    let mut out: Vec<ElementChange> = fresh();
    let mut i: usize = 0;
    assert(all.take(0) =~= Seq::<ElementChangeView>::empty());
    while i < d.changes.len()
        invariant
            i <= d.changes@.len(),
            all == d.changes.deep_view(),
            out.deep_view() == not_binned(all.take(i as int), binned.deep_view()),
        decreases d.changes@.len() - i,
    {
        let c = at(&d.changes, i);
        proof {
            assert(all.take(i + 1).drop_last() =~= all.take(i as int));
        }
        let key = key_for(c);
        if !holds(binned, key.as_str()) {
            put(&mut out, c.dup());
        }
        i += 1;
    }
    assert(all.take(all.len() as int) =~= all);
    ModelDiff { changes: out }
}

/// With nothing set aside the plan is whole.
pub proof fn law_nothing_binned(cs: Seq<ElementChangeView>)
    ensures
        not_binned(cs, Seq::empty()) == cs,
    decreases cs.len(),
{
    if cs.len() == 0 {
        assert(cs =~= Seq::empty());
    } else {
        law_nothing_binned(cs.drop_last());
        assert(cs.drop_last().push(cs.last()) =~= cs);
    }
}

/// An entry is in the plan exactly where it differs and is not set aside.
pub proof fn law_only_the_binned_are_out(
    cs: Seq<ElementChangeView>,
    binned: Seq<Seq<char>>,
    ch: ElementChangeView,
)
    ensures
        not_binned(cs, binned).contains(ch) <==> cs.contains(ch) && !binned.contains(key_of(ch)),
    decreases cs.len(),
{
    if cs.len() > 0 {
        let d = cs.drop_last();
        law_only_the_binned_are_out(d, binned, ch);
        let rest = not_binned(d, binned);
        let all = not_binned(cs, binned);
        if cs.contains(ch) && ch != cs.last() {
            let i = choose|i: int| 0 <= i < cs.len() && cs[i] == ch;
            assert(d[i] == ch);
        }
        if d.contains(ch) {
            let i = choose|i: int| 0 <= i < d.len() && d[i] == ch;
            assert(cs[i] == ch);
        }
        if rest.contains(ch) {
            let i = choose|i: int| 0 <= i < rest.len() && rest[i] == ch;
            assert(all[i] == ch);
        }
        if all.contains(ch) && !rest.contains(ch) {
            let i = choose|i: int| 0 <= i < all.len() && all[i] == ch;
            if i < rest.len() {
                assert(rest[i] == ch);
            }
        }
        if !binned.contains(key_of(cs.last())) {
            assert(all[rest.len() as int] == cs.last());
        }
        assert(cs[cs.len() - 1] == cs.last());
    }
}

/// The plan with nothing set aside.
pub fn open_plan(committed: &ScryModel, planned: &ScryModel) -> (r: ModelDiff)
    ensures
        r.deep_view().changes == diff_of(committed.deep_view(), planned.deep_view()),
{
    diff(committed, planned)
}

/// The work queue: the plan without what is set aside under the `binned` element keys,
/// and without what awaits a drift verdict.
pub fn pending_elements_without(
    committed: &ScryModel,
    planned: &ScryModel,
    binned: &Vec<String>,
) -> (r: Vec<ElementChange>)
    ensures
        r.deep_view() == not_vagrant(
            planned.deep_view(),
            not_binned(
                diff_of(committed.deep_view(), planned.deep_view()),
                binned.deep_view(),
            ),
        ),
{
    let d = open_plan_without(committed, planned, binned);
    let ghost all = d.changes.deep_view();
    let mut out: Vec<ElementChange> = fresh();
    let mut i: usize = 0;
    assert(all.take(0) =~= Seq::<ElementChangeView>::empty());
    while i < d.changes.len()
        invariant
            i <= d.changes@.len(),
            all == d.changes.deep_view(),
            out.deep_view() == not_vagrant(planned.deep_view(), all.take(i as int)),
        decreases d.changes@.len() - i,
    {
        let c = at(&d.changes, i);
        proof {
            assert(all.take(i + 1).drop_last() =~= all.take(i as int));
        }
        if !is_vagrant_change(planned, c) {
            put(&mut out, c.dup());
        }
        i += 1;
    }
    assert(all.take(all.len() as int) =~= all);
    out
}

/// The work queue with nothing set aside: the plan without what awaits a drift verdict.
pub fn pending_elements(committed: &ScryModel, planned: &ScryModel) -> (r: Vec<ElementChange>)
    ensures
        r.deep_view() == not_vagrant(
            planned.deep_view(),
            diff_of(committed.deep_view(), planned.deep_view()),
        ),
{
    proof {
        law_nothing_binned(diff_of(committed.deep_view(), planned.deep_view()));
    }
    pending_elements_without(committed, planned, &fresh())
}

/// How long the work queue is, without what is set aside.
pub fn pending_element_count_without(
    committed: &ScryModel,
    planned: &ScryModel,
    binned: &Vec<String>,
) -> (r: usize)
    ensures
        r == not_vagrant(
            planned.deep_view(),
            not_binned(
                diff_of(committed.deep_view(), planned.deep_view()),
                binned.deep_view(),
            ),
        ).len(),
{
    pending_elements_without(committed, planned, binned).len()
}

/// How long the work queue is.
pub fn pending_element_count(committed: &ScryModel, planned: &ScryModel) -> (r: usize)
    ensures
        r == not_vagrant(
            planned.deep_view(),
            diff_of(committed.deep_view(), planned.deep_view()),
        ).len(),
{
    pending_elements(committed, planned).len()
}

// ---- carriers -----------------------------------------------------------------

/// Is there a group called `id`?
pub open spec fn has_group(gs: Seq<GroupView>, id: Seq<char>) -> bool {
    exists|i: int| 0 <= i < gs.len() && (#[trigger] gs[i]).id == id
}

/// Is there a group called `id`?
pub fn group_there(gs: &Vec<Group>, id: &str) -> (r: bool)
    ensures
        r == has_group(gs.deep_view(), id@),
{
    let ghost vs = gs.deep_view();
    let mut i: usize = 0;
    while i < gs.len()
        invariant
            i <= gs@.len(),
            vs == gs.deep_view(),
            forall|j: int| 0 <= j < i ==> (#[trigger] vs[j]).id != id@,
        decreases gs@.len() - i,
    {
        let g = at(gs, i);
        if same_text(g.id.as_str(), id) {
            assert(vs[i as int].id == id@);
            return true;
        }
        i += 1;
    }
    false
}

/// The link a changed link's id stands for: the planned one, or else the
/// committed one.
pub open spec fn link_known(
    committed: Map<Seq<char>, LinkView>,
    planned: Map<Seq<char>, LinkView>,
    id: Seq<char>,
) -> Option<LinkView> {
    if planned.contains_key(id) {
        Some(planned[id])
    } else {
        lookup(committed, id)
    }
}

/// What the carrier count looks at.
pub struct Carried {
    pub plan: Seq<ElementChangeView>,
    pub committed: ScryModelView,
    pub planned: ScryModelView,
}

impl Carried {
    /// Is `id` a group of either layer?
    pub open spec fn is_group(self, id: Seq<char>) -> bool {
        has_group(self.planned.groups, id) || has_group(self.committed.groups, id)
    }

    /// The source of the link that a change concerns.
    pub open spec fn link_source(self, ch: ElementChangeView) -> Option<Seq<char>> {
        if ch.kind == ElementKind::Link {
            match link_known(
                link_index(self.committed.links),
                link_index(self.planned.links),
                ch.id,
            ) {
                Some(l) => Some(l.src),
                None => None,
            }
        } else {
            None
        }
    }

    /// Is the change one of a claim or property of `id`?
    pub open spec fn is_content_of(self, ch: ElementChangeView, id: Seq<char>) -> bool {
        (ch.kind == ElementKind::Responsibility || ch.kind == ElementKind::Property)
            && ch.owner_id == Some(id)
    }

    /// Does a change make `id` a node worth looking at: its own change, one of
    /// its content, or one of a link it performs?
    pub open spec fn points_at_node(self, ch: ElementChangeView, id: Seq<char>) -> bool {
        ||| ch.kind == ElementKind::Node && ch.id == id
        ||| self.is_content_of(ch, id) && !self.is_group(id)
        ||| self.link_source(ch) == Some(id) && !self.is_group(id)
    }

    /// Does a change make `id` a group worth looking at?
    pub open spec fn points_at_group(self, ch: ElementChangeView, id: Seq<char>) -> bool {
        ||| ch.kind == ElementKind::Group && ch.id == id
        ||| self.is_content_of(ch, id) && self.is_group(id)
    }

    /// Does the plan hold a change of the element itself?
    pub open spec fn own_change(self, kind: ElementKind, id: Seq<char>) -> bool {
        exists|i: int|
            0 <= i < self.plan.len() && (#[trigger] self.plan[i]).kind == kind && self.plan[i].id
                == id && self.plan[i].changes.len() > 0
    }

    /// Is the change one of content of `id` that is not a drift finding, given the
    /// claims and properties that the plan has there?
    pub open spec fn is_real_content(
        self,
        ch: ElementChangeView,
        id: Seq<char>,
        claims: Seq<ResponsibilityView>,
        props: Seq<SchemaPropertyView>,
    ) -> bool {
        self.is_content_of(ch, id) && !if ch.kind == ElementKind::Responsibility {
            vagrant_claim(claims, ch.id)
        } else {
            vagrant_prop(props, ch.id)
        }
    }

    /// Does the plan hold a change of content of `id` that is not a drift finding?
    pub open spec fn real_content(
        self,
        id: Seq<char>,
        claims: Seq<ResponsibilityView>,
        props: Seq<SchemaPropertyView>,
    ) -> bool {
        exists|i: int|
            0 <= i < self.plan.len() && self.is_real_content(
                #[trigger] self.plan[i],
                id,
                claims,
                props,
            )
    }

    /// Does the node carry a real change: its own unless it awaits a verdict, one
    /// of its content that is no drift finding, or one of a link it performs?
    pub open spec fn node_carries(self, id: Seq<char>) -> bool {
        ||| exists|i: int|
            0 <= i < self.plan.len() && self.link_source(#[trigger] self.plan[i]) == Some(id)
        ||| match last_node(self.planned.nodes, id) {
            Some(n) => n.vagrant != Some(true) && self.own_change(ElementKind::Node, id)
                || self.real_content(id, n.responsibilities, n.properties),
            None => self.own_change(ElementKind::Node, id) || self.real_content(
                id,
                Seq::empty(),
                Seq::empty(),
            ),
        }
    }

    /// Does the group carry a real change: its own, or one of its claims that is no
    /// drift finding?
    pub open spec fn group_carries(self, id: Seq<char>) -> bool {
        self.own_change(ElementKind::Group, id) || match lookup(
            group_index(self.planned.groups),
            id,
        ) {
            Some(g) => self.real_content(id, g.responsibilities, Seq::empty()),
            None => self.real_content(id, Seq::empty(), Seq::empty()),
        }
    }

    /// The nodes that carry a change.
    pub open spec fn nodes(self) -> Set<Seq<char>> {
        Set::new(
            |id: Seq<char>|
                self.node_carries(id) && exists|i: int|
                    0 <= i < self.plan.len() && self.points_at_node(#[trigger] self.plan[i], id),
        )
    }

    /// The groups that carry a change.
    pub open spec fn groups(self) -> Set<Seq<char>> {
        Set::new(
            |id: Seq<char>|
                self.group_carries(id) && exists|i: int|
                    0 <= i < self.plan.len() && self.points_at_group(#[trigger] self.plan[i], id),
        )
    }
}
fn link_source(cl: &StrMap<Link>, pl: &StrMap<Link>, ch: &ElementChange, Ghost(c): Ghost<Carried>) -> (r:
    Option<String>)
    requires
        cl.deep_view() == link_index(c.committed.links),
        pl.deep_view() == link_index(c.planned.links),
    ensures
        r.deep_view() == c.link_source(ch.deep_view()),
{
    if ch.kind == ElementKind::Link {
        match pl.get(ch.id.as_str()) {
            Some(l) => Some(l.src.clone()),
            None => match cl.get(ch.id.as_str()) {
                Some(l) => Some(l.src.clone()),
                None => None,
            },
        }
    } else {
        None
    }
}

fn has_own_change(plan: &Vec<ElementChange>, kind: ElementKind, id: &str, Ghost(c): Ghost<Carried>) -> (r:
    bool)
    requires
        plan.deep_view() == c.plan,
    ensures
        r == c.own_change(kind, id@),
{
    let mut i: usize = 0;
    while i < plan.len()
        invariant
            i <= plan@.len(),
            c.plan == plan.deep_view(),
            forall|j: int|
                0 <= j < i ==> !((#[trigger] c.plan[j]).kind == kind && c.plan[j].id == id@
                    && c.plan[j].changes.len() > 0),
        decreases plan@.len() - i,
    {
        let ch = at(plan, i);
        if ch.kind == kind && same_text(ch.id.as_str(), id) && ch.changes.len() > 0 {
            assert(c.plan[i as int].kind == kind);
            return true;
        }
        i += 1;
    }
    false
}

fn has_real_content(
    plan: &Vec<ElementChange>,
    id: &str,
    claims: &Vec<Responsibility>,
    props: &Vec<SchemaProperty>,
    Ghost(c): Ghost<Carried>,
) -> (r: bool)
    requires
        plan.deep_view() == c.plan,
    ensures
        r == c.real_content(id@, claims.deep_view(), props.deep_view()),
{
    let ghost rv = claims.deep_view();
    let ghost pv = props.deep_view();
    let mut i: usize = 0;
    while i < plan.len()
        invariant
            i <= plan@.len(),
            c.plan == plan.deep_view(),
            rv == claims.deep_view(),
            pv == props.deep_view(),
            forall|j: int| 0 <= j < i ==> !c.is_real_content(#[trigger] c.plan[j], id@, rv, pv),
        decreases plan@.len() - i,
    {
        let ch = at(plan, i);
        if ch.kind == ElementKind::Responsibility || ch.kind == ElementKind::Property {
            let mine = match &ch.owner_id {
                Some(o) => same_text(o.as_str(), id),
                None => false,
            };
            if mine {
                let drift = if ch.kind == ElementKind::Responsibility {
                    has_vagrant_claim(claims, ch.id.as_str())
                } else {
                    has_vagrant_prop(props, ch.id.as_str())
                };
                if !drift {
                    assert(c.is_real_content(c.plan[i as int], id@, rv, pv));
                    return true;
                }
            }
        }
        i += 1;
    }
    false
}

fn node_bears(
    planned: &ScryModel,
    cl: &StrMap<Link>,
    pl: &StrMap<Link>,
    plan: &Vec<ElementChange>,
    id: &str,
    Ghost(c): Ghost<Carried>,
) -> (r: bool)
    requires
        plan.deep_view() == c.plan,
        planned.deep_view() == c.planned,
        cl.deep_view() == link_index(c.committed.links),
        pl.deep_view() == link_index(c.planned.links),
    ensures
        r == c.node_carries(id@),
{
    if performs_link(cl, pl, plan, id, Ghost(c)) {
        return true;
    }
    match find_last_node(&planned.nodes, id) {
        Some(k) => {
            let n = at(&planned.nodes, k);
            (!is_on(&n.vagrant) && has_own_change(plan, ElementKind::Node, id, Ghost(c)))
                || has_real_content(plan, id, &n.responsibilities, &n.properties, Ghost(c))
        },
        None => has_own_change(plan, ElementKind::Node, id, Ghost(c)) || has_real_content(
            plan,
            id,
            &fresh(),
            &fresh(),
            Ghost(c),
        ),
    }
}

fn group_bears(
    gs: &StrMap<Group>,
    plan: &Vec<ElementChange>,
    id: &str,
    Ghost(c): Ghost<Carried>,
) -> (r: bool)
    requires
        plan.deep_view() == c.plan,
        gs.deep_view() == group_index(c.planned.groups),
    ensures
        r == c.group_carries(id@),
{
    has_own_change(plan, ElementKind::Group, id, Ghost(c)) || match gs.get(id) {
        Some(g) => has_real_content(plan, id, &g.responsibilities, &fresh(), Ghost(c)),
        None => has_real_content(plan, id, &fresh(), &fresh(), Ghost(c)),
    }
}

fn performs_link(
    cl: &StrMap<Link>,
    pl: &StrMap<Link>,
    plan: &Vec<ElementChange>,
    id: &str,
    Ghost(c): Ghost<Carried>,
) -> (r: bool)
    requires
        plan.deep_view() == c.plan,
        cl.deep_view() == link_index(c.committed.links),
        pl.deep_view() == link_index(c.planned.links),
    ensures
        r == exists|i: int|
            0 <= i < c.plan.len() && c.link_source(#[trigger] c.plan[i]) == Some(id@),
{
    let mut i: usize = 0;
    while i < plan.len()
        invariant
            i <= plan@.len(),
            c.plan == plan.deep_view(),
            cl.deep_view() == link_index(c.committed.links),
            pl.deep_view() == link_index(c.planned.links),
            forall|j: int| 0 <= j < i ==> c.link_source(#[trigger] c.plan[j]) != Some(id@),
        decreases plan@.len() - i,
    {
        let ch = at(plan, i);
        match link_source(cl, pl, ch, Ghost(c)) {
            Some(s) => {
                if same_text(s.as_str(), id) {
                    assert(c.link_source(c.plan[i as int]) == Some(id@));
                    return true;
                }
            },
            None => {},
        }
        i += 1;
    }
    false
}

/// How many nodes and groups carry a planned change that is not set aside under one of the
/// `binned` element keys: content changes count under their host, link changes under the
/// link's source, and drift findings, on a node or a group, not at all.
pub fn plan_carrier_count_without(
    committed: &ScryModel,
    planned: &ScryModel,
    binned: &Vec<String>,
) -> (r: usize)
    ensures
        ({
            let c = Carried {
                plan: not_binned(
                    diff_of(committed.deep_view(), planned.deep_view()),
                    binned.deep_view(),
                ),
                committed: committed.deep_view(),
                planned: planned.deep_view(),
            };
            &&& c.nodes().finite()
            &&& c.groups().finite()
            &&& r == c.nodes().len() + c.groups().len()
        }),
{
    let plan = open_plan_without(committed, planned, binned).changes;
    let cl = index_links(&committed.links);
    let pl = index_links(&planned.links);
    let pg = index_groups(&planned.groups);
    let ghost c = Carried {
        plan: plan.deep_view(),
        committed: committed.deep_view(),
        planned: planned.deep_view(),
    };
    let mut nodes: Vec<String> = fresh();
    let mut groups: Vec<String> = fresh();
    let mut i: usize = 0;
    while i < plan.len()
        invariant
            i <= plan@.len(),
            c.plan == plan.deep_view(),
            c.committed == committed.deep_view(),
            c.planned == planned.deep_view(),
            cl.deep_view() == link_index(c.committed.links),
            pl.deep_view() == link_index(c.planned.links),
            pg.deep_view() == group_index(c.planned.groups),
            nodes@.len() + groups@.len() <= i,
            nodes.deep_view().no_duplicates(),
            groups.deep_view().no_duplicates(),
            forall|id: Seq<char>|
                #![trigger nodes.deep_view().contains(id)]
                nodes.deep_view().contains(id) ==> c.nodes().contains(id),
            forall|id: Seq<char>|
                #![trigger groups.deep_view().contains(id)]
                groups.deep_view().contains(id) ==> c.groups().contains(id),
            forall|j: int, id: Seq<char>|
                #![trigger c.points_at_node(c.plan[j], id)]
                0 <= j < i && c.points_at_node(c.plan[j], id) && c.node_carries(id)
                    ==> nodes.deep_view().contains(id),
            forall|j: int, id: Seq<char>|
                #![trigger c.points_at_group(c.plan[j], id)]
                0 <= j < i && c.points_at_group(c.plan[j], id) && c.group_carries(id)
                    ==> groups.deep_view().contains(id),
        decreases plan@.len() - i,
    {
        let ch = at(&plan, i);
        let ghost cv = ch.deep_view();
        // The element this change points at, and whether it is a group.
        let target: Option<(String, bool)> = match ch.kind {
            ElementKind::Node => Some((ch.id.clone(), false)),
            ElementKind::Group => Some((ch.id.clone(), true)),
            ElementKind::Responsibility | ElementKind::Property => match &ch.owner_id {
                Some(o) => Some(
                    (
                        o.clone(),
                        group_there(&planned.groups, o.as_str()) || group_there(
                            &committed.groups,
                            o.as_str(),
                        ),
                    ),
                ),
                None => None,
            },
            ElementKind::Link => match link_source(&cl, &pl, ch, Ghost(c)) {
                Some(s) => if group_there(&planned.groups, s.as_str()) || group_there(
                    &committed.groups,
                    s.as_str(),
                ) {
                    None
                } else {
                    Some((s, false))
                },
                None => None,
            },
        };
        let ghost nodes0 = nodes.deep_view();
        let ghost groups0 = groups.deep_view();
        match target {
            None => {
                assert(forall|id: Seq<char>| !c.points_at_node(cv, id));
                assert(forall|id: Seq<char>| !c.points_at_group(cv, id));
            },
            Some((id, is_group)) => {
                proof {
                    assert(forall|q: Seq<char>|
                        c.points_at_node(cv, q) <==> (!is_group && q == id@));
                    assert(forall|q: Seq<char>|
                        c.points_at_group(cv, q) <==> (is_group && q == id@));
                }
                if is_group {
                    if !holds(&groups, id.as_str()) {
                        if group_bears(&pg, &plan, id.as_str(), Ghost(c)) {
                            put(&mut groups, id.clone());
                            proof {
                                assert(c.points_at_group(c.plan[i as int], id@));
                                lemma_push_contains(groups0, id@);
                            }
                        }
                    }
                } else if !holds(&nodes, id.as_str()) {
                    if node_bears(planned, &cl, &pl, &plan, id.as_str(), Ghost(c)) {
                        put(&mut nodes, id.clone());
                        proof {
                            assert(c.points_at_node(c.plan[i as int], id@));
                            lemma_push_contains(nodes0, id@);
                        }
                    }
                }
            },
        }
        i += 1;
    }
    proof {
        let ns = nodes.deep_view();
        let gs = groups.deep_view();
        assert(ns.to_set() =~= c.nodes());
        assert(gs.to_set() =~= c.groups());
        ns.unique_seq_to_set();
        gs.unique_seq_to_set();
        vstd::seq_lib::seq_to_set_is_finite(ns);
        vstd::seq_lib::seq_to_set_is_finite(gs);
    }
    nodes.len() + groups.len()
}

/// How many nodes and groups carry a planned change, with nothing set aside: content
/// changes count under their host, link changes under the link's source, and drift
/// findings, on a node or a group, not at all.
pub fn plan_carrier_count(committed: &ScryModel, planned: &ScryModel) -> (r: usize)
    ensures
        ({
            let c = Carried {
                plan: diff_of(committed.deep_view(), planned.deep_view()),
                committed: committed.deep_view(),
                planned: planned.deep_view(),
            };
            &&& c.nodes().finite()
            &&& c.groups().finite()
            &&& r == c.nodes().len() + c.groups().len()
        }),
{
    proof {
        law_nothing_binned(diff_of(committed.deep_view(), planned.deep_view()));
    }
    plan_carrier_count_without(committed, planned, &fresh())
}

proof fn lemma_push_contains(s: Seq<Seq<char>>, x: Seq<char>)
    ensures
        forall|q: Seq<char>|
            #![trigger s.push(x).contains(q)]
            s.push(x).contains(q) <==> (s.contains(q) || q == x),
        s.no_duplicates() && !s.contains(x) ==> s.push(x).no_duplicates(),
{
    assert forall|q: Seq<char>|
        #![trigger s.push(x).contains(q)]
        s.push(x).contains(q) <==> (s.contains(q) || q == x) by {
        if s.contains(q) {
            let i = choose|i: int| 0 <= i < s.len() && s[i] == q;
            assert(s.push(x)[i] == q);
        }
        assert(s.push(x)[s.len() as int] == x);
    }
}

// ---- laws ---------------------------------------------------------------------

proof fn lemma_collected_none(s: Seq<Option<ElementChangeView>>)
    requires
        forall|i: int| 0 <= i < s.len() ==> #[trigger] s[i] is None,
    ensures
        collected(s) =~= Seq::<ElementChangeView>::empty(),
    decreases s.len(),
{
    if s.len() > 0 {
        assert(s[s.len() - 1] is None);
        assert forall|i: int| 0 <= i < s.len() - 1 implies #[trigger] s.drop_last()[i] is None by {
            assert(s[i] is None);
        }
        lemma_collected_none(s.drop_last());
    }
}

/// Every collected record is one of those it was collected from.
pub proof fn lemma_collected_from(s: Seq<Option<ElementChangeView>>, i: int) -> (j: int)
    requires
        0 <= i < collected(s).len(),
    ensures
        0 <= j < s.len(),
        s[j] == Some(collected(s)[i]),
    decreases s.len(),
{
    if s.last() is Some && i == collected(s).len() - 1 {
        s.len() - 1
    } else {
        lemma_collected_from(s.drop_last(), i)
    }
}

proof fn lemma_same_index<T: Compared>(m: Map<Seq<char>, T::V>)
    ensures
        kept_or_new::<T>(m, m) =~= Seq::<ElementChangeView>::empty(),
        gone::<T>(m, m) =~= Seq::<ElementChangeView>::empty(),
{
    let ks = ascending(m.dom());
    let a = Seq::new(ks.len(), |i: int| T::change_of(ks[i], lookup(m, ks[i]), lookup(m, ks[i])));
    assert forall|i: int| 0 <= i < a.len() implies #[trigger] a[i] is None by {
        T::lemma_change(ks[i], lookup(m, ks[i]), lookup(m, ks[i]));
    }
    lemma_collected_none(a);
    let b = Seq::new(
        ks.len(),
        |i: int|
            if m.contains_key(ks[i]) {
                None
            } else {
                T::change_of(ks[i], lookup(m, ks[i]), None)
            },
    );
    assert forall|i: int| 0 <= i < b.len() implies #[trigger] b[i] is None by {
        T::lemma_change(ks[i], lookup(m, ks[i]), None);
    }
    lemma_collected_none(b);
}

proof fn lemma_flattened_empty(s: Seq<Seq<ElementChangeView>>)
    requires
        forall|i: int| 0 <= i < s.len() ==> (#[trigger] s[i]).len() == 0,
    ensures
        flattened(s) =~= Seq::<ElementChangeView>::empty(),
    decreases s.len(),
{
    if s.len() > 0 {
        assert(s[s.len() - 1].len() == 0);
        assert forall|i: int| 0 <= i < s.len() - 1 implies (#[trigger] s.drop_last()[i]).len()
            == 0 by {
            assert(s[i].len() == 0);
        }
        lemma_flattened_empty(s.drop_last());
    }
}

/// A model does not diverge from itself.
pub proof fn law_no_diff_with_itself(m: ScryModelView)
    ensures
        diff_of(m, m).len() == 0,
{
    lemma_same_index::<Node>(node_index(m.nodes));
    lemma_same_index::<Link>(link_index(m.links));
    lemma_same_index::<OwnedResp>(claim_index(m));
    lemma_same_index::<Group>(group_index(m.groups));
    let p = prop_index(m.nodes);
    let ks = ascending(p.dom());
    let first = Seq::new(
        ks.len(),
        |i: int| kept_or_new::<OwnedProp>(inner(p, ks[i]), inner(p, ks[i])),
    );
    let second = Seq::new(ks.len(), |i: int| gone::<OwnedProp>(inner(p, ks[i]), inner(p, ks[i])));
    assert forall|i: int| 0 <= i < first.len() implies (#[trigger] first[i]).len() == 0 by {
        lemma_same_index::<OwnedProp>(inner(p, ks[i]));
    }
    assert forall|i: int| 0 <= i < second.len() implies (#[trigger] second[i]).len() == 0 by {
        lemma_same_index::<OwnedProp>(inner(p, ks[i]));
    }
    lemma_flattened_empty(first);
    lemma_flattened_empty(second);
}

/// Is every entry of a plan a real one?
pub open spec fn all_real(cs: Seq<ElementChangeView>) -> bool {
    forall|i: int| 0 <= i < cs.len() ==> (#[trigger] cs[i]).changes.len() > 0
}

proof fn lemma_walks_real<T: Compared>(f: Map<Seq<char>, T::V>, t: Map<Seq<char>, T::V>)
    ensures
        all_real(kept_or_new::<T>(f, t)),
        all_real(gone::<T>(f, t)),
{
    let tk = ascending(t.dom());
    let a = Seq::new(
        tk.len(),
        |i: int| T::change_of(tk[i], lookup(f, tk[i]), lookup(t, tk[i])),
    );
    assert forall|i: int| 0 <= i < collected(a).len() implies (#[trigger] collected(
        a,
    )[i]).changes.len() > 0 by {
        let j = lemma_collected_from(a, i);
        T::lemma_change(tk[j], lookup(f, tk[j]), lookup(t, tk[j]));
    }
    let fk = ascending(f.dom());
    let b = Seq::new(
        fk.len(),
        |i: int|
            if t.contains_key(fk[i]) {
                None
            } else {
                T::change_of(fk[i], lookup(f, fk[i]), None)
            },
    );
    assert forall|i: int| 0 <= i < collected(b).len() implies (#[trigger] collected(
        b,
    )[i]).changes.len() > 0 by {
        let j = lemma_collected_from(b, i);
        T::lemma_change(fk[j], lookup(f, fk[j]), None);
    }
}

proof fn lemma_flattened_real(s: Seq<Seq<ElementChangeView>>)
    requires
        forall|i: int| 0 <= i < s.len() ==> all_real(#[trigger] s[i]),
    ensures
        all_real(flattened(s)),
    decreases s.len(),
{
    if s.len() > 0 {
        assert(all_real(s[s.len() - 1]));
        assert forall|i: int| 0 <= i < s.len() - 1 implies all_real(
            #[trigger] s.drop_last()[i],
        ) by {
            assert(all_real(s[i]));
        }
        lemma_flattened_real(s.drop_last());
    }
}

/// The plan never holds an entry without a change.
pub proof fn law_plan_entries_are_real(from: ScryModelView, to: ScryModelView)
    ensures
        all_real(diff_of(from, to)),
{
    lemma_walks_real::<Node>(node_index(from.nodes), node_index(to.nodes));
    lemma_walks_real::<Link>(link_index(from.links), link_index(to.links));
    lemma_walks_real::<OwnedResp>(claim_index(from), claim_index(to));
    lemma_walks_real::<Group>(group_index(from.groups), group_index(to.groups));
    let f = prop_index(from.nodes);
    let t = prop_index(to.nodes);
    let tk = ascending(t.dom());
    let fk = ascending(f.dom());
    let first = Seq::new(
        tk.len(),
        |i: int| kept_or_new::<OwnedProp>(inner(f, tk[i]), inner(t, tk[i])),
    );
    let second = Seq::new(fk.len(), |i: int| gone::<OwnedProp>(inner(f, fk[i]), inner(t, fk[i])));
    assert forall|i: int| 0 <= i < first.len() implies all_real(#[trigger] first[i]) by {
        lemma_walks_real::<OwnedProp>(inner(f, tk[i]), inner(t, tk[i]));
    }
    assert forall|i: int| 0 <= i < second.len() implies all_real(#[trigger] second[i]) by {
        lemma_walks_real::<OwnedProp>(inner(f, fk[i]), inner(t, fk[i]));
    }
    lemma_flattened_real(first);
    lemma_flattened_real(second);
}

/// A node has changed exactly when its parent or one of its truth-bearing texts
/// has: its place on the canvas, icon, notes and flags never count.
pub proof fn law_only_truth_bearing_fields_count(prev: NodeView, n: NodeView)
    ensures
        node_changes(prev, n).len() == 0 <==> {
            &&& prev.parent_id == n.parent_id
            &&& prev.name == n.name
            &&& or_empty(prev.technology) == or_empty(n.technology)
            &&& or_empty(prev.description) == or_empty(n.description)
            &&& directive_lines(prev.directives) == directive_lines(n.directives)
            &&& prev.kind == n.kind
            &&& (prev.external == Some(true)) == (n.external == Some(true))
        },
{
    reveal_strlit("person");
    reveal_strlit("system");
    reveal_strlit("container");
    reveal_strlit("component");
    reveal_strlit("symbol");
    reveal_strlit("true");
    reveal_strlit("false");
    assert("person"@[0] == 'p' && "system"@[0] == 's' && "container"@[3] == 't' && "component"@[3]
        == 'p' && "symbol"@[2] == 'm' && "system"@[2] == 's');
    assert("container"@[0] == 'c' && "component"@[0] == 'c' && "symbol"@[0] == 's');
    assert("true"@[0] == 't' && "false"@[0] == 'f');
}

/// The work queue is part of the plan: nothing is added to it.
pub proof fn law_queue_within_plan(planned: ScryModelView, cs: Seq<ElementChangeView>, i: int) -> (j:
    int)
    requires
        0 <= i < not_vagrant(planned, cs).len(),
    ensures
        0 <= j < cs.len(),
        not_vagrant(planned, cs)[i] == cs[j],
        !awaits_verdict(planned, cs[j]),
    decreases cs.len(),
{
    if !awaits_verdict(planned, cs.last()) && i == not_vagrant(planned, cs).len() - 1 {
        cs.len() - 1
    } else {
        law_queue_within_plan(planned, cs.drop_last(), i)
    }
}

} // verus!
