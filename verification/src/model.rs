//! The model: nodes, the claims they carry, links, groups, and the maps that
//! tie claims to code.

use crate::changes::{ChangeMeta, ChangeMetaView, Policy, PolicyView};
use crate::concerns::{ConcernDef, ConcernDefView};
use crate::modelled::{at, fresh, put, Modelled};
use crate::named::{except, find, first, others, Named};
use crate::strmap::StrMap;
use crate::text::{cat2, cat3, holds, join, joined, same_text, strip_prefix};
use vstd::prelude::*;
use vstd::string::*;

verus! {

/// The version a fresh model is stamped with.
pub const SCRY_VERSION: &'static str = "0.3";


/// What a node is.
#[derive(Debug, Clone, Copy, PartialEq, Eq, Structural, Hash)]
pub enum Kind {
    /// An actor.
    Person,
    /// A software system.
    System,
    /// A separately deployable runtime boundary.
    Container,
    /// A code structure inside a container.
    Component,
    /// One addressable code definition.
    Symbol,
}

impl DeepView for Kind {
    type V = Kind;

    open spec fn deep_view(&self) -> Kind {
        *self
    }
}

impl Modelled for Kind {
    fn dup(&self) -> (r: Self) {
        *self
    }

    fn same(&self, other: &Self) -> (r: bool) {
        *self == *other
    }
}

/// A prescriptive constraint, with the external anchor ids that motivate it.
/// A directive is its words: it has no id of its own. Citations are opaque
/// strings that are stored and compared, never interpreted.
#[derive(Debug, PartialEq)]
pub struct Directive {
    /// The constraint itself.
    pub text: String,
    /// External anchor ids; empty when it cites nothing.
    pub cites: Vec<String>,
}

/// The model of a [`Directive`].
#[verifier::ext_equal]
pub struct DirectiveView {
    pub text: Seq<char>,
    pub cites: Seq<Seq<char>>,
}

impl DeepView for Directive {
    type V = DirectiveView;

    open spec fn deep_view(&self) -> DirectiveView {
        DirectiveView {
            text: self.text.deep_view(),
            cites: self.cites.deep_view(),
        }
    }
}

impl Modelled for Directive {
    fn dup(&self) -> (r: Self) {
        Directive {
            text: self.text.dup(),
            cites: self.cites.dup(),
        }
    }

    fn same(&self, other: &Self) -> (r: bool) {
        self.text.same(&other.text)
            && self.cites.same(&other.cites)
    }
}

impl Clone for Directive {
    fn clone(&self) -> (r: Self)
        ensures
            r.deep_view() == self.deep_view(),
    {
        self.dup()
    }
}

/// A claim: one statement of what its host is accountable for.
#[derive(Debug, PartialEq)]
pub struct Responsibility {
    pub id: String,
    /// A short human name, unique on its host.
    pub title: Option<String>,
    /// The claim itself.
    pub statement: String,
    /// At most one kebab-case concern slug; none means core domain flow.
    pub concern: Option<String>,
    /// Opaque external anchor ids.
    pub cites: Vec<String>,
    /// Awaiting an adopt or reject verdict.
    pub vagrant: Option<bool>,
    /// `amendment` or `addition` when the flag did not come from code.
    pub vagrant_origin: Option<String>,
    /// The signed-off wording, kept beside an amendment.
    pub approved_statement: Option<String>,
    /// The code was judged not to discharge this claim any more.
    pub stale: Option<bool>,
    /// The wording that would match the code.
    pub stale_proposal: Option<String>,
    /// Constraints on how the claim is discharged.
    pub directives: Vec<Directive>,
    /// Unix seconds of the last truth-bearing edit.
    pub last_touched_at: Option<u64>,
}

/// The model of a [`Responsibility`].
#[verifier::ext_equal]
pub struct ResponsibilityView {
    pub id: Seq<char>,
    pub title: Option<Seq<char>>,
    pub statement: Seq<char>,
    pub concern: Option<Seq<char>>,
    pub cites: Seq<Seq<char>>,
    pub vagrant: Option<bool>,
    pub vagrant_origin: Option<Seq<char>>,
    pub approved_statement: Option<Seq<char>>,
    pub stale: Option<bool>,
    pub stale_proposal: Option<Seq<char>>,
    pub directives: Seq<DirectiveView>,
    pub last_touched_at: Option<u64>,
}

impl DeepView for Responsibility {
    type V = ResponsibilityView;

    open spec fn deep_view(&self) -> ResponsibilityView {
        ResponsibilityView {
            id: self.id.deep_view(),
            title: self.title.deep_view(),
            statement: self.statement.deep_view(),
            concern: self.concern.deep_view(),
            cites: self.cites.deep_view(),
            vagrant: self.vagrant.deep_view(),
            vagrant_origin: self.vagrant_origin.deep_view(),
            approved_statement: self.approved_statement.deep_view(),
            stale: self.stale.deep_view(),
            stale_proposal: self.stale_proposal.deep_view(),
            directives: self.directives.deep_view(),
            last_touched_at: self.last_touched_at.deep_view(),
        }
    }
}

impl Modelled for Responsibility {
    fn dup(&self) -> (r: Self) {
        Responsibility {
            id: self.id.dup(),
            title: self.title.dup(),
            statement: self.statement.dup(),
            concern: self.concern.dup(),
            cites: self.cites.dup(),
            vagrant: self.vagrant.dup(),
            vagrant_origin: self.vagrant_origin.dup(),
            approved_statement: self.approved_statement.dup(),
            stale: self.stale.dup(),
            stale_proposal: self.stale_proposal.dup(),
            directives: self.directives.dup(),
            last_touched_at: self.last_touched_at.dup(),
        }
    }

    fn same(&self, other: &Self) -> (r: bool) {
        self.id.same(&other.id)
            && self.title.same(&other.title)
            && self.statement.same(&other.statement)
            && self.concern.same(&other.concern)
            && self.cites.same(&other.cites)
            && self.vagrant.same(&other.vagrant)
            && self.vagrant_origin.same(&other.vagrant_origin)
            && self.approved_statement.same(&other.approved_statement)
            && self.stale.same(&other.stale)
            && self.stale_proposal.same(&other.stale_proposal)
            && self.directives.same(&other.directives)
            && self.last_touched_at.same(&other.last_touched_at)
    }
}

impl Clone for Responsibility {
    fn clone(&self) -> (r: Self)
        ensures
            r.deep_view() == self.deep_view(),
    {
        self.dup()
    }
}

/// One field of a declared data shape.
#[derive(Debug, PartialEq)]
pub struct SchemaProperty {
    pub label: String,
    pub description: String,
    pub vagrant: Option<bool>,
    pub stale: Option<bool>,
    pub last_touched_at: Option<u64>,
}

/// The model of a [`SchemaProperty`].
#[verifier::ext_equal]
pub struct SchemaPropertyView {
    pub label: Seq<char>,
    pub description: Seq<char>,
    pub vagrant: Option<bool>,
    pub stale: Option<bool>,
    pub last_touched_at: Option<u64>,
}

impl DeepView for SchemaProperty {
    type V = SchemaPropertyView;

    open spec fn deep_view(&self) -> SchemaPropertyView {
        SchemaPropertyView {
            label: self.label.deep_view(),
            description: self.description.deep_view(),
            vagrant: self.vagrant.deep_view(),
            stale: self.stale.deep_view(),
            last_touched_at: self.last_touched_at.deep_view(),
        }
    }
}

impl Modelled for SchemaProperty {
    fn dup(&self) -> (r: Self) {
        SchemaProperty {
            label: self.label.dup(),
            description: self.description.dup(),
            vagrant: self.vagrant.dup(),
            stale: self.stale.dup(),
            last_touched_at: self.last_touched_at.dup(),
        }
    }

    fn same(&self, other: &Self) -> (r: bool) {
        self.label.same(&other.label)
            && self.description.same(&other.description)
            && self.vagrant.same(&other.vagrant)
            && self.stale.same(&other.stale)
            && self.last_touched_at.same(&other.last_touched_at)
    }
}

impl Clone for SchemaProperty {
    fn clone(&self) -> (r: Self)
        ensures
            r.deep_view() == self.deep_view(),
    {
        self.dup()
    }
}

/// A boundary glob.
#[derive(Debug, PartialEq)]
pub struct Source {
    pub pattern: String,
    pub comment: Option<String>,
}

/// The model of a [`Source`].
#[verifier::ext_equal]
pub struct SourceView {
    pub pattern: Seq<char>,
    pub comment: Option<Seq<char>>,
}

impl DeepView for Source {
    type V = SourceView;

    open spec fn deep_view(&self) -> SourceView {
        SourceView {
            pattern: self.pattern.deep_view(),
            comment: self.comment.deep_view(),
        }
    }
}

impl Modelled for Source {
    fn dup(&self) -> (r: Self) {
        Source {
            pattern: self.pattern.dup(),
            comment: self.comment.dup(),
        }
    }

    fn same(&self, other: &Self) -> (r: bool) {
        self.pattern.same(&other.pattern)
            && self.comment.same(&other.comment)
    }
}

impl Clone for Source {
    fn clone(&self) -> (r: Self)
        ensures
            r.deep_view() == self.deep_view(),
    {
        self.dup()
    }
}

/// Where code discharges a claim, or where a test exercises it.
#[derive(Debug, PartialEq)]
pub struct SourceLocation {
    /// Project-relative path, or a glob.
    pub pattern: String,
    /// The enclosing definition.
    pub symbol: Option<String>,
    pub line: Option<u32>,
    pub end_line: Option<u32>,
}

/// The model of a [`SourceLocation`].
#[verifier::ext_equal]
pub struct SourceLocationView {
    pub pattern: Seq<char>,
    pub symbol: Option<Seq<char>>,
    pub line: Option<u32>,
    pub end_line: Option<u32>,
}

impl DeepView for SourceLocation {
    type V = SourceLocationView;

    open spec fn deep_view(&self) -> SourceLocationView {
        SourceLocationView {
            pattern: self.pattern.deep_view(),
            symbol: self.symbol.deep_view(),
            line: self.line.deep_view(),
            end_line: self.end_line.deep_view(),
        }
    }
}

impl Modelled for SourceLocation {
    fn dup(&self) -> (r: Self) {
        SourceLocation {
            pattern: self.pattern.dup(),
            symbol: self.symbol.dup(),
            line: self.line.dup(),
            end_line: self.end_line.dup(),
        }
    }

    fn same(&self, other: &Self) -> (r: bool) {
        self.pattern.same(&other.pattern)
            && self.symbol.same(&other.symbol)
            && self.line.same(&other.line)
            && self.end_line.same(&other.end_line)
    }
}

impl Clone for SourceLocation {
    fn clone(&self) -> (r: Self)
        ensures
            r.deep_view() == self.deep_view(),
    {
        self.dup()
    }
}

/// A manual canvas placement, kept as the bit patterns of its two coordinates:
/// it is stored and handed back, and nothing is computed from it.
#[derive(Debug, Clone, Copy, PartialEq, Eq, Structural)]
pub struct Position {
    pub x: u64,
    pub y: u64,
}

impl DeepView for Position {
    type V = Position;

    open spec fn deep_view(&self) -> Position {
        *self
    }
}

impl Modelled for Position {
    fn dup(&self) -> (r: Self) {
        *self
    }

    fn same(&self, other: &Self) -> (r: bool) {
        *self == *other
    }
}

/// An element of the architecture.
#[derive(Debug, PartialEq)]
pub struct Node {
    pub id: String,
    pub kind: Kind,
    pub name: String,
    pub parent_id: Option<String>,
    /// Outside the system: opaque, never backed by our code.
    pub external: Option<bool>,
    pub technology: Option<String>,
    pub description: Option<String>,
    /// Minted by a drift check, awaiting a verdict.
    pub vagrant: Option<bool>,
    /// The code behind the whole node is gone.
    pub stale: Option<bool>,
    pub responsibilities: Vec<Responsibility>,
    pub properties: Vec<SchemaProperty>,
    pub icon: Option<String>,
    pub notes: Option<String>,
    pub position: Option<Position>,
    /// These bind the whole subtree.
    pub directives: Vec<Directive>,
}

/// The model of a [`Node`].
#[verifier::ext_equal]
pub struct NodeView {
    pub id: Seq<char>,
    pub kind: Kind,
    pub name: Seq<char>,
    pub parent_id: Option<Seq<char>>,
    pub external: Option<bool>,
    pub technology: Option<Seq<char>>,
    pub description: Option<Seq<char>>,
    pub vagrant: Option<bool>,
    pub stale: Option<bool>,
    pub responsibilities: Seq<ResponsibilityView>,
    pub properties: Seq<SchemaPropertyView>,
    pub icon: Option<Seq<char>>,
    pub notes: Option<Seq<char>>,
    pub position: Option<Position>,
    pub directives: Seq<DirectiveView>,
}

impl DeepView for Node {
    type V = NodeView;

    open spec fn deep_view(&self) -> NodeView {
        NodeView {
            id: self.id.deep_view(),
            kind: self.kind.deep_view(),
            name: self.name.deep_view(),
            parent_id: self.parent_id.deep_view(),
            external: self.external.deep_view(),
            technology: self.technology.deep_view(),
            description: self.description.deep_view(),
            vagrant: self.vagrant.deep_view(),
            stale: self.stale.deep_view(),
            responsibilities: self.responsibilities.deep_view(),
            properties: self.properties.deep_view(),
            icon: self.icon.deep_view(),
            notes: self.notes.deep_view(),
            position: self.position.deep_view(),
            directives: self.directives.deep_view(),
        }
    }
}

impl Modelled for Node {
    fn dup(&self) -> (r: Self) {
        Node {
            id: self.id.dup(),
            kind: self.kind.dup(),
            name: self.name.dup(),
            parent_id: self.parent_id.dup(),
            external: self.external.dup(),
            technology: self.technology.dup(),
            description: self.description.dup(),
            vagrant: self.vagrant.dup(),
            stale: self.stale.dup(),
            responsibilities: self.responsibilities.dup(),
            properties: self.properties.dup(),
            icon: self.icon.dup(),
            notes: self.notes.dup(),
            position: self.position.dup(),
            directives: self.directives.dup(),
        }
    }

    fn same(&self, other: &Self) -> (r: bool) {
        self.id.same(&other.id)
            && self.kind.same(&other.kind)
            && self.name.same(&other.name)
            && self.parent_id.same(&other.parent_id)
            && self.external.same(&other.external)
            && self.technology.same(&other.technology)
            && self.description.same(&other.description)
            && self.vagrant.same(&other.vagrant)
            && self.stale.same(&other.stale)
            && self.responsibilities.same(&other.responsibilities)
            && self.properties.same(&other.properties)
            && self.icon.same(&other.icon)
            && self.notes.same(&other.notes)
            && self.position.same(&other.position)
            && self.directives.same(&other.directives)
    }
}

impl Clone for Node {
    fn clone(&self) -> (r: Self)
        ensures
            r.deep_view() == self.deep_view(),
    {
        self.dup()
    }
}

/// What one ancestor hands down.
#[derive(Debug, PartialEq)]
pub struct InheritedDirectives {
    pub node_id: String,
    pub name: String,
    pub directives: Vec<Directive>,
}

/// The model of a [`InheritedDirectives`].
#[verifier::ext_equal]
pub struct InheritedDirectivesView {
    pub node_id: Seq<char>,
    pub name: Seq<char>,
    pub directives: Seq<DirectiveView>,
}

impl DeepView for InheritedDirectives {
    type V = InheritedDirectivesView;

    open spec fn deep_view(&self) -> InheritedDirectivesView {
        InheritedDirectivesView {
            node_id: self.node_id.deep_view(),
            name: self.name.deep_view(),
            directives: self.directives.deep_view(),
        }
    }
}

impl Modelled for InheritedDirectives {
    fn dup(&self) -> (r: Self) {
        InheritedDirectives {
            node_id: self.node_id.dup(),
            name: self.name.dup(),
            directives: self.directives.dup(),
        }
    }

    fn same(&self, other: &Self) -> (r: bool) {
        self.node_id.same(&other.node_id)
            && self.name.same(&other.name)
            && self.directives.same(&other.directives)
    }
}

impl Clone for InheritedDirectives {
    fn clone(&self) -> (r: Self)
        ensures
            r.deep_view() == self.deep_view(),
    {
        self.dup()
    }
}

/// A directed relationship.
#[derive(Debug, PartialEq)]
pub struct Link {
    pub id: String,
    pub src: String,
    pub dst: String,
    pub label: String,
    pub method: Option<String>,
}

/// The model of a [`Link`].
#[verifier::ext_equal]
pub struct LinkView {
    pub id: Seq<char>,
    pub src: Seq<char>,
    pub dst: Seq<char>,
    pub label: Seq<char>,
    pub method: Option<Seq<char>>,
}

impl DeepView for Link {
    type V = LinkView;

    open spec fn deep_view(&self) -> LinkView {
        LinkView {
            id: self.id.deep_view(),
            src: self.src.deep_view(),
            dst: self.dst.deep_view(),
            label: self.label.deep_view(),
            method: self.method.deep_view(),
        }
    }
}

impl Modelled for Link {
    fn dup(&self) -> (r: Self) {
        Link {
            id: self.id.dup(),
            src: self.src.dup(),
            dst: self.dst.dup(),
            label: self.label.dup(),
            method: self.method.dup(),
        }
    }

    fn same(&self, other: &Self) -> (r: bool) {
        self.id.same(&other.id)
            && self.src.same(&other.src)
            && self.dst.same(&other.dst)
            && self.label.same(&other.label)
            && self.method.same(&other.method)
    }
}

impl Clone for Link {
    fn clone(&self) -> (r: Self)
        ensures
            r.deep_view() == self.deep_view(),
    {
        self.dup()
    }
}

/// Peers organised along a secondary axis.
#[derive(Debug, PartialEq)]
pub struct Group {
    pub id: String,
    pub name: String,
    pub description: Option<String>,
    pub member_ids: Vec<String>,
    pub parent_group_id: Option<String>,
    pub parent_node_id: Option<String>,
    pub responsibilities: Vec<Responsibility>,
    pub icon: Option<String>,
}

/// The model of a [`Group`].
#[verifier::ext_equal]
pub struct GroupView {
    pub id: Seq<char>,
    pub name: Seq<char>,
    pub description: Option<Seq<char>>,
    pub member_ids: Seq<Seq<char>>,
    pub parent_group_id: Option<Seq<char>>,
    pub parent_node_id: Option<Seq<char>>,
    pub responsibilities: Seq<ResponsibilityView>,
    pub icon: Option<Seq<char>>,
}

impl DeepView for Group {
    type V = GroupView;

    open spec fn deep_view(&self) -> GroupView {
        GroupView {
            id: self.id.deep_view(),
            name: self.name.deep_view(),
            description: self.description.deep_view(),
            member_ids: self.member_ids.deep_view(),
            parent_group_id: self.parent_group_id.deep_view(),
            parent_node_id: self.parent_node_id.deep_view(),
            responsibilities: self.responsibilities.deep_view(),
            icon: self.icon.deep_view(),
        }
    }
}

impl Modelled for Group {
    fn dup(&self) -> (r: Self) {
        Group {
            id: self.id.dup(),
            name: self.name.dup(),
            description: self.description.dup(),
            member_ids: self.member_ids.dup(),
            parent_group_id: self.parent_group_id.dup(),
            parent_node_id: self.parent_node_id.dup(),
            responsibilities: self.responsibilities.dup(),
            icon: self.icon.dup(),
        }
    }

    fn same(&self, other: &Self) -> (r: bool) {
        self.id.same(&other.id)
            && self.name.same(&other.name)
            && self.description.same(&other.description)
            && self.member_ids.same(&other.member_ids)
            && self.parent_group_id.same(&other.parent_group_id)
            && self.parent_node_id.same(&other.parent_node_id)
            && self.responsibilities.same(&other.responsibilities)
            && self.icon.same(&other.icon)
    }
}

impl Clone for Group {
    fn clone(&self) -> (r: Self)
        ensures
            r.deep_view() == self.deep_view(),
    {
        self.dup()
    }
}

/// A whole model: one layer of it, committed or planned.
#[derive(Debug, PartialEq)]
pub struct ScryModel {
    pub version: String,
    pub nodes: Vec<Node>,
    pub links: Vec<Link>,
    pub groups: Vec<Group>,
    /// Claim id (or node id, for a data shape) to where code discharges it.
    pub source_map: StrMap<Vec<SourceLocation>>,
    /// Claim id to the tests attached to it.
    pub test_map: StrMap<Vec<SourceLocation>>,
    /// Node id to the globs of the code it owns.
    pub boundaries: StrMap<Vec<Source>>,
    /// The concern registry.
    pub concerns: Vec<ConcernDef>,
    /// The open changes; plan layer only.
    pub changes: Vec<ChangeMeta>,
    /// Element key to the change it is filed under; plan layer only.
    pub change_map: StrMap<String>,
    /// How changes are approved; committed layer.
    pub policy: Option<Policy>,
}

/// The model of a [`ScryModel`].
#[verifier::ext_equal]
pub struct ScryModelView {
    pub version: Seq<char>,
    pub nodes: Seq<NodeView>,
    pub links: Seq<LinkView>,
    pub groups: Seq<GroupView>,
    pub source_map: Map<Seq<char>, Seq<SourceLocationView>>,
    pub test_map: Map<Seq<char>, Seq<SourceLocationView>>,
    pub boundaries: Map<Seq<char>, Seq<SourceView>>,
    pub concerns: Seq<ConcernDefView>,
    pub changes: Seq<ChangeMetaView>,
    pub change_map: Map<Seq<char>, Seq<char>>,
    pub policy: Option<PolicyView>,
}

impl DeepView for ScryModel {
    type V = ScryModelView;

    open spec fn deep_view(&self) -> ScryModelView {
        ScryModelView {
            version: self.version.deep_view(),
            nodes: self.nodes.deep_view(),
            links: self.links.deep_view(),
            groups: self.groups.deep_view(),
            source_map: self.source_map.deep_view(),
            test_map: self.test_map.deep_view(),
            boundaries: self.boundaries.deep_view(),
            concerns: self.concerns.deep_view(),
            changes: self.changes.deep_view(),
            change_map: self.change_map.deep_view(),
            policy: self.policy.deep_view(),
        }
    }
}

impl Modelled for ScryModel {
    fn dup(&self) -> (r: Self) {
        ScryModel {
            version: self.version.dup(),
            nodes: self.nodes.dup(),
            links: self.links.dup(),
            groups: self.groups.dup(),
            source_map: self.source_map.dup(),
            test_map: self.test_map.dup(),
            boundaries: self.boundaries.dup(),
            concerns: self.concerns.dup(),
            changes: self.changes.dup(),
            change_map: self.change_map.dup(),
            policy: self.policy.dup(),
        }
    }

    fn same(&self, other: &Self) -> (r: bool) {
        self.version.same(&other.version)
            && self.nodes.same(&other.nodes)
            && self.links.same(&other.links)
            && self.groups.same(&other.groups)
            && self.source_map.same(&other.source_map)
            && self.test_map.same(&other.test_map)
            && self.boundaries.same(&other.boundaries)
            && self.concerns.same(&other.concerns)
            && self.changes.same(&other.changes)
            && self.change_map.same(&other.change_map)
            && self.policy.same(&other.policy)
    }
}

impl Clone for ScryModel {
    fn clone(&self) -> (r: Self)
        ensures
            r.deep_view() == self.deep_view(),
    {
        self.dup()
    }
}

// ---- directives ---------------------------------------------------------------

impl Directive {
    /// A directive with no citations.
    pub fn new(text: &str) -> (r: Self)
        ensures
            r.text@ == text@,
            r.cites@.len() == 0,
    {
        Directive { text: text.to_owned(), cites: Vec::new() }
    }

    /// A directive citing `cites`.
    pub fn cited(text: &str, cites: Vec<String>) -> (r: Self)
        ensures
            r.text@ == text@,
            r.cites == cites,
    {
        Directive { text: text.to_owned(), cites }
    }

    /// The constraint's words.
    pub fn as_str(&self) -> (r: &str)
        ensures
            r@ == self.text@,
    {
        self.text.as_str()
    }
}

impl From<&str> for Directive {
    fn from(text: &str) -> (r: Self)
        ensures
            r.text@ == text@,
            r.cites@.len() == 0,
    {
        Directive::new(text)
    }
}

impl vstd::std_specs::convert::FromSpecImpl<&str> for Directive {
    open spec fn obeys_from_spec() -> bool {
        false
    }

    open spec fn from_spec(text: &str) -> Self {
        arbitrary()
    }
}

impl From<String> for Directive {
    fn from(text: String) -> (r: Self)
        ensures
            r.text@ == text@,
            r.cites@.len() == 0,
    {
        Directive { text, cites: Vec::new() }
    }
}

impl vstd::std_specs::convert::FromSpecImpl<String> for Directive {
    open spec fn obeys_from_spec() -> bool {
        false
    }

    open spec fn from_spec(text: String) -> Self {
        arbitrary()
    }
}

/// A directive equals bare prose when it says those words and cites nothing.
impl PartialEq<String> for Directive {
    fn eq(&self, other: &String) -> (r: bool) {
        self.cites.len() == 0 && self.text == *other
    }
}

impl vstd::std_specs::cmp::PartialEqSpecImpl<String> for Directive {
    open spec fn obeys_eq_spec() -> bool {
        true
    }

    open spec fn eq_spec(&self, other: &String) -> bool {
        self.cites@.len() == 0 && self.text@ == other@
    }
}

/// A directive equals bare prose when it says those words and cites nothing.
impl PartialEq<str> for Directive {
    fn eq(&self, other: &str) -> (r: bool) {
        self.cites.len() == 0 && same_text(self.text.as_str(), other)
    }
}

impl vstd::std_specs::cmp::PartialEqSpecImpl<str> for Directive {
    open spec fn obeys_eq_spec() -> bool {
        true
    }

    open spec fn eq_spec(&self, other: &str) -> bool {
        self.cites@.len() == 0 && self.text@ == other@
    }
}

/// One directive on a line: its words, and its citations when it has any.
pub open spec fn directive_line(d: DirectiveView) -> Seq<char> {
    if d.cites.len() == 0 {
        d.text
    } else {
        d.text + " [cites: "@ + joined(d.cites, ", "@) + "]"@
    }
}

/// A list of directives, one per line.
pub open spec fn directive_lines(ds: Seq<DirectiveView>) -> Seq<char> {
    joined(Seq::new(ds.len(), |i: int| directive_line(ds[i])), "\n"@)
}

/// The directives as one comparable, legible text: a citation added or removed
/// changes it even when no word of the prose does.
pub fn directives_rendered(directives: &Vec<Directive>) -> (r: String)
    ensures
        r@ == directive_lines(directives.deep_view()),
{
    let mut lines: Vec<String> = Vec::new();
    let mut i: usize = 0;
    let ghost ds = directives.deep_view();
    while i < directives.len()
        invariant
            i <= directives@.len(),
            ds == directives.deep_view(),
            lines.deep_view() =~= Seq::new(i as nat, |k: int| directive_line(ds[k])),
        decreases directives@.len() - i,
    {
        let d = &directives[i];
        assert(ds[i as int] == d.deep_view());
        let line = if d.cites.len() == 0 {
            d.text.clone()
        } else {
            let list = join(&d.cites, ", ");
            let mut s = cat3(d.text.as_str(), " [cites: ", list.as_str());
            s.append("]");
            s
        };
        let ghost before = lines.deep_view();
        lines.push(line);
        assert(lines.deep_view() =~= before.push(line@));
        i += 1;
    }
    assert(lines.deep_view() =~= Seq::new(ds.len(), |k: int| directive_line(ds[k])));
    join(&lines, "\n")
}

impl Named for Node {
    open spec fn name_of(v: NodeView) -> Seq<char> {
        v.id
    }

    fn found_by(&self) -> (r: &String) {
        &self.id
    }
}

impl Named for Link {
    open spec fn name_of(v: LinkView) -> Seq<char> {
        v.id
    }

    fn found_by(&self) -> (r: &String) {
        &self.id
    }
}

impl Named for Group {
    open spec fn name_of(v: GroupView) -> Seq<char> {
        v.id
    }

    fn found_by(&self) -> (r: &String) {
        &self.id
    }
}

impl Named for Responsibility {
    open spec fn name_of(v: ResponsibilityView) -> Seq<char> {
        v.id
    }

    fn found_by(&self) -> (r: &String) {
        &self.id
    }
}

impl Named for SchemaProperty {
    open spec fn name_of(v: SchemaPropertyView) -> Seq<char> {
        v.label
    }

    fn found_by(&self) -> (r: &String) {
        &self.label
    }
}

// ---- lookups ------------------------------------------------------------------

/// The last node called `id`.
pub open spec fn last_node(nodes: Seq<NodeView>, id: Seq<char>) -> Option<NodeView>
    decreases nodes.len(),
{
    if nodes.len() == 0 {
        None
    } else if nodes.last().id == id {
        Some(nodes.last())
    } else {
        last_node(nodes.drop_last(), id)
    }
}

/// Is there a node called `id`?
pub open spec fn has_node(nodes: Seq<NodeView>, id: Seq<char>) -> bool {
    exists|i: int| 0 <= i < nodes.len() && (#[trigger] nodes[i]).id == id
}

/// The last node with an id is found.
pub proof fn lemma_last_node(nodes: Seq<NodeView>, id: Seq<char>, i: int)
    requires
        0 <= i < nodes.len(),
        nodes[i].id == id,
        forall|j: int| i < j < nodes.len() ==> (#[trigger] nodes[j]).id != id,
    ensures
        last_node(nodes, id) == Some(nodes[i]),
    decreases nodes.len(),
{
    if i < nodes.len() - 1 {
        assert(nodes[nodes.len() - 1].id != id);
        assert forall|j: int| i < j < nodes.len() - 1 implies (#[trigger] nodes.drop_last()[j]).id
            != id by {
            assert(nodes[j].id != id);
        }
        lemma_last_node(nodes.drop_last(), id, i);
    }
}

proof fn lemma_no_last_node(nodes: Seq<NodeView>, id: Seq<char>)
    requires
        forall|j: int| 0 <= j < nodes.len() ==> (#[trigger] nodes[j]).id != id,
    ensures
        last_node(nodes, id) is None,
    decreases nodes.len(),
{
    if nodes.len() > 0 {
        assert(nodes[nodes.len() - 1].id != id);
        assert forall|j: int| 0 <= j < nodes.len() - 1 implies (#[trigger] nodes.drop_last()[j]).id
            != id by {
            assert(nodes[j].id != id);
        }
        lemma_no_last_node(nodes.drop_last(), id);
    }
}

/// A lookup finds a node exactly when there is one, and it is the one asked for.
pub proof fn lemma_lookups(nodes: Seq<NodeView>, id: Seq<char>)
    ensures
        last_node(nodes, id) is Some <==> has_node(nodes, id),
        last_node(nodes, id) is Some ==> last_node(nodes, id)->0.id == id,
    decreases nodes.len(),
{
    if nodes.len() > 0 {
        let d = nodes.drop_last();
        lemma_lookups(d, id);
        if has_node(nodes, id) {
            let i = choose|i: int| 0 <= i < nodes.len() && (#[trigger] nodes[i]).id == id;
            if i < nodes.len() - 1 {
                assert(d[i].id == id);
            }
        }
        if has_node(d, id) {
            let i = choose|i: int| 0 <= i < d.len() && (#[trigger] d[i]).id == id;
            assert(nodes[i].id == id);
        }
        assert(nodes[nodes.len() - 1].id == id ==> has_node(nodes, id));
    }
}

/// Where the last node called `id` stands.
pub fn find_last_node(nodes: &Vec<Node>, id: &str) -> (r: Option<usize>)
    ensures
        match r {
            Some(i) => i < nodes@.len() && last_node(nodes.deep_view(), id@) == Some(
                nodes.deep_view()[i as int],
            ) && nodes.deep_view()[i as int].id == id@,
            None => last_node(nodes.deep_view(), id@) is None && !has_node(
                nodes.deep_view(),
                id@,
            ),
        },
{
    let ghost vs = nodes.deep_view();
    let mut i: usize = nodes.len();
    while i > 0
        invariant
            i <= nodes@.len(),
            vs == nodes.deep_view(),
            forall|j: int| i <= j < vs.len() ==> (#[trigger] vs[j]).id != id@,
        decreases i,
    {
        i -= 1;
        assert(vs[i as int] == nodes@[i as int].deep_view());
        if same_text(nodes[i].id.as_str(), id) {
            proof {
                lemma_last_node(vs, id@, i as int);
            }
            return Some(i);
        }
    }
    proof {
        lemma_no_last_node(vs, id@);
    }
    None
}

// ---- claims -------------------------------------------------------------------

/// The first claim called `id` on a node, with its host.
pub open spec fn node_claim(ns: Seq<NodeView>, id: Seq<char>) -> Option<
    (Seq<char>, ResponsibilityView),
>
    decreases ns.len(),
{
    if ns.len() == 0 {
        None
    } else {
        match first::<Responsibility>(ns[0].responsibilities, id) {
            Some(r) => Some((ns[0].id, r)),
            None => node_claim(ns.drop_first(), id),
        }
    }
}

/// The first claim called `id` on a group, with its host.
pub open spec fn group_claim(gs: Seq<GroupView>, id: Seq<char>) -> Option<
    (Seq<char>, ResponsibilityView),
>
    decreases gs.len(),
{
    if gs.len() == 0 {
        None
    } else {
        match first::<Responsibility>(gs[0].responsibilities, id) {
            Some(r) => Some((gs[0].id, r)),
            None => group_claim(gs.drop_first(), id),
        }
    }
}

/// The first claim called `id`, nodes before groups, with its host.
pub open spec fn claim_of(m: ScryModelView, id: Seq<char>) -> Option<
    (Seq<char>, ResponsibilityView),
> {
    match node_claim(m.nodes, id) {
        Some(x) => Some(x),
        None => group_claim(m.groups, id),
    }
}

/// The first claim called `id`, nodes before groups, with its host.
pub fn find_responsibility(model: &ScryModel, id: &str) -> (r: Option<(String, Responsibility)>)
    ensures
        match r {
            Some((host, c)) => claim_of(model.deep_view(), id@) == Some((host@, c.deep_view())),
            None => claim_of(model.deep_view(), id@) is None,
        },
{
    let ghost ns = model.nodes.deep_view();
    let mut i: usize = 0;
    assert(ns.skip(0) =~= ns);
    while i < model.nodes.len()
        invariant
            i <= model.nodes@.len(),
            ns == model.nodes.deep_view(),
            node_claim(ns.skip(i as int), id@) == node_claim(ns, id@),
        decreases model.nodes@.len() - i,
    {
        let n = at(&model.nodes, i);
        assert(ns.skip(i as int).drop_first() =~= ns.skip(i + 1));
        match find(&n.responsibilities, id) {
            Some(k) => {
                return Some((n.id.clone(), at(&n.responsibilities, k).dup()));
            },
            None => {},
        }
        i += 1;
    }
    let ghost gs = model.groups.deep_view();
    let mut j: usize = 0;
    assert(gs.skip(0) =~= gs);
    while j < model.groups.len()
        invariant
            j <= model.groups@.len(),
            gs == model.groups.deep_view(),
            node_claim(model.deep_view().nodes, id@) is None,
            group_claim(gs.skip(j as int), id@) == group_claim(gs, id@),
        decreases model.groups@.len() - j,
    {
        let g = at(&model.groups, j);
        assert(gs.skip(j as int).drop_first() =~= gs.skip(j + 1));
        match find(&g.responsibilities, id) {
            Some(k) => {
                return Some((g.id.clone(), at(&g.responsibilities, k).dup()));
            },
            None => {},
        }
        j += 1;
    }
    None
}

/// The nodes without the claim called `id`.
pub open spec fn nodes_without_claim(ns: Seq<NodeView>, id: Seq<char>) -> Seq<NodeView> {
    Seq::new(
        ns.len(),
        |i: int|
            NodeView {
                responsibilities: others::<Responsibility>(ns[i].responsibilities, id),
                ..ns[i]
            },
    )
}

/// The nodes without the claim called `id`.
pub fn strip_nodes(ns: &Vec<Node>, id: &str) -> (r: Vec<Node>)
    ensures
        r.deep_view() == nodes_without_claim(ns.deep_view(), id@),
{
    let ghost all = nodes_without_claim(ns.deep_view(), id@);
    let mut out: Vec<Node> = fresh();
    let mut i: usize = 0;
    assert(all.take(0) =~= Seq::<NodeView>::empty());
    while i < ns.len()
        invariant
            i <= ns@.len(),
            all == nodes_without_claim(ns.deep_view(), id@),
            out.deep_view() == all.take(i as int),
        decreases ns@.len() - i,
    {
        let mut n = at(ns, i).dup();
        n.responsibilities = except(&n.responsibilities, id);
        put(&mut out, n);
        assert(all.take(i + 1) =~= all.take(i as int).push(all[i as int]));
        i += 1;
    }
    assert(all.take(all.len() as int) =~= all);
    out
}

/// The groups without the claim called `id`.
pub open spec fn groups_without_claim(gs: Seq<GroupView>, id: Seq<char>) -> Seq<GroupView> {
    Seq::new(
        gs.len(),
        |i: int|
            GroupView {
                responsibilities: others::<Responsibility>(gs[i].responsibilities, id),
                ..gs[i]
            },
    )
}

/// The groups without the claim called `id`.
pub fn strip_groups(gs: &Vec<Group>, id: &str) -> (r: Vec<Group>)
    ensures
        r.deep_view() == groups_without_claim(gs.deep_view(), id@),
{
    let ghost all = groups_without_claim(gs.deep_view(), id@);
    let mut out: Vec<Group> = fresh();
    let mut i: usize = 0;
    assert(all.take(0) =~= Seq::<GroupView>::empty());
    while i < gs.len()
        invariant
            i <= gs@.len(),
            all == groups_without_claim(gs.deep_view(), id@),
            out.deep_view() == all.take(i as int),
        decreases gs@.len() - i,
    {
        let mut g = at(gs, i).dup();
        g.responsibilities = except(&g.responsibilities, id);
        put(&mut out, g);
        assert(all.take(i + 1) =~= all.take(i as int).push(all[i as int]));
        i += 1;
    }
    assert(all.take(all.len() as int) =~= all);
    out
}

// ---- ancestry -----------------------------------------------------------------

/// How many nodes have an id outside `seen`.
pub open spec fn unseen(nodes: Seq<NodeView>, seen: Seq<Seq<char>>) -> nat
    decreases nodes.len(),
{
    if nodes.len() == 0 {
        0
    } else {
        unseen(nodes.drop_last(), seen) + if seen.contains(nodes.last().id) {
            0nat
        } else {
            1nat
        }
    }
}

/// Seeing one more id leaves no more nodes unseen, and fewer when it names a node
/// that was not seen before.
pub proof fn lemma_unseen_shrinks(nodes: Seq<NodeView>, seen: Seq<Seq<char>>, id: Seq<char>)
    ensures
        unseen(nodes, seen.push(id)) <= unseen(nodes, seen),
        !seen.contains(id) && has_node(nodes, id) ==> unseen(nodes, seen.push(id)) < unseen(
            nodes,
            seen,
        ),
    decreases nodes.len(),
{
    if nodes.len() > 0 {
        let d = nodes.drop_last();
        lemma_unseen_shrinks(d, seen, id);
        let last = nodes.last().id;
        assert(seen.push(id).contains(last) == (seen.contains(last) || last == id)) by {
            if seen.contains(last) {
                let k = choose|k: int| 0 <= k < seen.len() && seen[k] == last;
                assert(seen.push(id)[k] == last);
            }
            assert(seen.push(id)[seen.len() as int] == id);
        }
        if has_node(nodes, id) && last != id {
            let i = choose|i: int| 0 <= i < nodes.len() && (#[trigger] nodes[i]).id == id;
            assert(d[i].id == id);
        }
    }
}

/// The nodes met by walking up from the id `at`: each is the parent of the one
/// before it. The walk ends at an id that names no node, or that was met before.
pub open spec fn chain(nodes: Seq<NodeView>, at: Option<Seq<char>>, seen: Seq<Seq<char>>) -> Seq<
    NodeView,
>
    decreases unseen(nodes, seen),
{
    if at is None || seen.contains(at->0) || last_node(nodes, at->0) is None {
        Seq::empty()
    } else {
        let id = at->0;
        let n = last_node(nodes, id)->0;
        proof {
            lemma_lookups(nodes, id);
            lemma_unseen_shrinks(nodes, seen, id);
        }
        seq![n] + chain(nodes, n.parent_id, seen.push(id))
    }
}

/// The ancestors of `id`, nearest first.
pub open spec fn ancestors(nodes: Seq<NodeView>, id: Seq<char>) -> Seq<NodeView> {
    match last_node(nodes, id) {
        Some(n) => chain(nodes, n.parent_id, Seq::empty()),
        None => Seq::empty(),
    }
}

/// The places of the nodes met by walking up from `at`.
pub fn chain_of(nodes: &Vec<Node>, at: &Option<String>) -> (r: Vec<usize>)
    ensures
        forall|k: int| 0 <= k < r@.len() ==> #[trigger] r@[k] < nodes@.len(),
        Seq::new(r@.len(), |k: int| nodes.deep_view()[r@[k] as int]) == chain(
            nodes.deep_view(),
            at.deep_view(),
            Seq::empty(),
        ),
{
    let ghost vs = nodes.deep_view();
    let mut out: Vec<usize> = Vec::new();
    let mut seen: Vec<String> = Vec::new();
    let mut cur: Option<String> = at.dup();
    let ghost whole = chain(vs, at.deep_view(), Seq::empty());
    assert(seen.deep_view() =~= Seq::<Seq<char>>::empty());
    assert(Seq::new(out@.len(), |k: int| vs[out@[k] as int]) + chain(
        vs,
        cur.deep_view(),
        seen.deep_view(),
    ) =~= whole);
    loop
        invariant
            vs == nodes.deep_view(),
            forall|k: int| 0 <= k < out@.len() ==> #[trigger] out@[k] < nodes@.len(),
            Seq::new(out@.len(), |k: int| vs[out@[k] as int]) + chain(
                vs,
                cur.deep_view(),
                seen.deep_view(),
            ) == whole,
        ensures
            forall|k: int| 0 <= k < out@.len() ==> #[trigger] out@[k] < nodes@.len(),
            Seq::new(out@.len(), |k: int| vs[out@[k] as int]) == whole,
        decreases unseen(vs, seen.deep_view()),
    {
        let ghost got = Seq::new(out@.len(), |k: int| vs[out@[k] as int]);
        let id = match &cur {
            Some(id) => id.clone(),
            None => {
                assert(got =~= whole);
                break;
            },
        };
        if holds(&seen, id.as_str()) {
            assert(got =~= whole);
            break;
        }
        match find_last_node(nodes, id.as_str()) {
            None => {
                assert(got =~= whole);
                break;
            },
            Some(i) => {
                let ghost seen0 = seen.deep_view();
                let next = nodes[i].parent_id.dup();
                assert(vs[i as int] == nodes@[i as int].deep_view());
                proof {
                    lemma_lookups(vs, id@);
                    lemma_unseen_shrinks(vs, seen0, id@);
                }
                out.push(i);
                seen.push(id);
                assert(seen.deep_view() =~= seen0.push(id@));
                assert(Seq::new(out@.len(), |k: int| vs[out@[k] as int]) =~= got.push(
                    vs[i as int],
                ));
                cur = next;
                assert(got + (seq![vs[i as int]] + chain(vs, cur.deep_view(), seen.deep_view()))
                    =~= got.push(vs[i as int]) + chain(vs, cur.deep_view(), seen.deep_view()));
            },
        }
    }
    out
}

/// What an ancestor hands down.
pub open spec fn handed_down(n: NodeView) -> InheritedDirectivesView {
    InheritedDirectivesView { node_id: n.id, name: n.name, directives: n.directives }
}

/// What a list of ancestors hands down: one entry for each that has directives.
pub open spec fn all_handed_down(ns: Seq<NodeView>) -> Seq<InheritedDirectivesView>
    decreases ns.len(),
{
    if ns.len() == 0 {
        Seq::empty()
    } else if ns.last().directives.len() == 0 {
        all_handed_down(ns.drop_last())
    } else {
        all_handed_down(ns.drop_last()).push(handed_down(ns.last()))
    }
}

/// The directives a node inherits: every ancestor's own, nearest ancestor first,
/// skipping the ancestors that have none.
pub fn inherited_directives(model: &ScryModel, node_id: &str) -> (r: Vec<InheritedDirectives>)
    ensures
        r.deep_view() == all_handed_down(ancestors(model.deep_view().nodes, node_id@)),
{
    let ghost vs = model.nodes.deep_view();
    let mut out: Vec<InheritedDirectives> = Vec::new();
    assert(out.deep_view() =~= Seq::<InheritedDirectivesView>::empty());
    match find_last_node(&model.nodes, node_id) {
        None => out,
        Some(at) => {
            assert(vs[at as int] == model.nodes@[at as int].deep_view());
            let up = chain_of(&model.nodes, &model.nodes[at].parent_id);
            let ghost line = Seq::new(up@.len(), |k: int| vs[up@[k] as int]);
            let mut i: usize = 0;
            assert(line.take(0) =~= Seq::<NodeView>::empty());
            while i < up.len()
                invariant
                    i <= up@.len(),
                    vs == model.nodes.deep_view(),
                    line == Seq::new(up@.len(), |k: int| vs[up@[k] as int]),
                    forall|k: int| 0 <= k < up@.len() ==> #[trigger] up@[k] < model.nodes@.len(),
                    out.deep_view() == all_handed_down(line.take(i as int)),
                decreases up@.len() - i,
            {
                let p = &model.nodes[up[i]];
                proof {
                    assert(vs[up@[i as int] as int] == p.deep_view());
                    assert(line.take(i + 1).drop_last() =~= line.take(i as int));
                    assert(line.take(i + 1).last() == p.deep_view());
                }
                if p.directives.len() > 0 {
                    let ghost before = out.deep_view();
                    let one = InheritedDirectives {
                        node_id: p.id.dup(),
                        name: p.name.dup(),
                        directives: p.directives.dup(),
                    };
                    out.push(one);
                    assert(out.deep_view() =~= before.push(one.deep_view()));
                }
                i += 1;
            }
            assert(line.take(up@.len() as int) =~= line);
            out
        },
    }
}

/// A symbol that carries nothing of its own: no claims, no fields, not external.
pub fn is_node_empty(node: &Node) -> (r: bool)
    ensures
        r == (node.kind == Kind::Symbol && node.external != Some(true)
            && node.responsibilities@.len() == 0 && node.properties@.len() == 0),
{
    let external = match node.external {
        Some(b) => b,
        None => false,
    };
    node.kind == Kind::Symbol && !external && node.responsibilities.len() == 0
        && node.properties.len() == 0
}

// ---- the model ----------------------------------------------------------------

/// The model with nothing in it.
pub open spec fn empty_model() -> ScryModelView {
    ScryModelView {
        version: SCRY_VERSION@,
        nodes: Seq::empty(),
        links: Seq::empty(),
        groups: Seq::empty(),
        source_map: Map::empty(),
        test_map: Map::empty(),
        boundaries: Map::empty(),
        concerns: Seq::empty(),
        changes: Seq::empty(),
        change_map: Map::empty(),
        policy: None,
    }
}

impl ScryModel {
    /// An empty model at the current version.
    pub fn new() -> (r: Self)
        ensures
            r.deep_view() == empty_model(),
    {
        let r = ScryModel {
            version: SCRY_VERSION.to_owned(),
            nodes: Vec::new(),
            links: Vec::new(),
            groups: Vec::new(),
            source_map: StrMap::new(),
            test_map: StrMap::new(),
            boundaries: StrMap::new(),
            concerns: Vec::new(),
            changes: Vec::new(),
            change_map: StrMap::new(),
            policy: None,
        };
        assert(r.deep_view() =~= empty_model());
        r
    }
}

impl Default for ScryModel {
    fn default() -> (r: Self)
        ensures
            r.deep_view() == empty_model(),
    {
        ScryModel::new()
    }
}

// ---- test anchors -------------------------------------------------------------

/// Marks the key of a test anchor where test and source anchors share one space.
pub const TEST_KEY_PREFIX: &'static str = "test:";

/// The shared-space key of the tests attached to a claim.
pub fn test_key(resp_id: &str) -> (r: String)
    ensures
        r@ == TEST_KEY_PREFIX@ + resp_id@,
{
    cat2(TEST_KEY_PREFIX, resp_id)
}

/// The claim behind a test anchor's key; none for any other key.
pub fn test_resp_id(key: &str) -> (r: Option<&str>)
    ensures
        match r {
            Some(id) => key@ == TEST_KEY_PREFIX@ + id@,
            None => !TEST_KEY_PREFIX@.is_prefix_of(key@),
        },
{
    strip_prefix(key, TEST_KEY_PREFIX)
}

/// A claim's test key leads back to the claim.
pub proof fn law_test_key_round_trip(resp_id: Seq<char>, id: Seq<char>)
    ensures
        TEST_KEY_PREFIX@.is_prefix_of(TEST_KEY_PREFIX@ + resp_id),
        TEST_KEY_PREFIX@ + resp_id == TEST_KEY_PREFIX@ + id ==> id == resp_id,
{
    let k = TEST_KEY_PREFIX@ + resp_id;
    assert(TEST_KEY_PREFIX@ =~= k.subrange(0, TEST_KEY_PREFIX@.len() as int));
    if k == TEST_KEY_PREFIX@ + id {
        let n = TEST_KEY_PREFIX@.len() as int;
        assert(k.skip(n) =~= resp_id);
        assert((TEST_KEY_PREFIX@ + id).skip(n) =~= id);
    }
}


} // verus!
