//! The basis of a write: what a read showed, so that a write can be checked against it.
//!
//! Two writers that read the same node and each write their own edit lose one of them. A
//! check of the one claim that is written would miss the case where each rewords another
//! claim of one node. So every read that an edit can be based on answers a basis over
//! the relevant set that it showed; every write names the basis it was made against; and
//! the write is refused where anything in that set moved. The first to commit wins, the
//! second reads again.
//!
//! The relevant set is what a writer bases an edit on and nothing else: the claims of the
//! governing nodes in both layers, their binding directives, and the pending entries in
//! scope.

use crate::changes::{key_for, key_of};
use crate::diff::{
    diff_of, law_nothing_binned, not_binned, not_vagrant, pending_elements_without, ref_view,
    Change, ChangeView, ElementChange, ElementChangeView, ElementKind,
};
use crate::json::{json_list, json_opt, json_text, list_quoted, opt_quoted, quoted};
use crate::model::{
    all_handed_down, ancestors, directive_lines, directives_rendered, inherited_directives, Group,
    GroupView, InheritedDirectivesView, Node, NodeView, Responsibility, ResponsibilityView,
    ScryModel, ScryModelView,
};
use crate::modelled::{at, fresh, is_on, or_empty, put, text_or_empty, Modelled};
use crate::named::{find, first};
use crate::rollup::Tally;
use crate::signoff::{digest, digest_of, kind_word, kind_words};
use crate::strmap::StrMap;
use crate::strset::StrSet;
use crate::text::{
    ascending, cat2, cat3, chars_of, dec, decimal, first_place, holds, is_white, join, joined,
    reads_at, same_text, split_once, strip_prefix, text_of, white,
};
use base64::Engine;
use serde_json::Value;
use std::collections::BTreeMap;
use std::io::{Read, Write};
use vstd::prelude::*;
use vstd::string::*;
use vstd::utf8::encode_utf8;

verus! {

/// What every token begins with: the name and version of the format.
pub const TOKEN_PREFIX: &'static str = "b1.";

/// What a read showed.
#[derive(Debug, PartialEq)]
pub struct Scope {
    /// The nodes whose claims and binding directives it showed.
    pub nodes: Vec<String>,
    /// The groups whose claims it showed.
    pub groups: Vec<String>,
    /// The nodes that it named without their claims.
    pub outline: Vec<String>,
    /// Pending entries beyond those that `nodes` and `groups` own: those of a change,
    /// the `unfiled` ones, or all of them for `*`.
    pub pending: Option<String>,
}

/// The model of a [`Scope`].
#[verifier::ext_equal]
pub struct ScopeView {
    pub nodes: Seq<Seq<char>>,
    pub groups: Seq<Seq<char>>,
    pub outline: Seq<Seq<char>>,
    pub pending: Option<Seq<char>>,
}

impl DeepView for Scope {
    type V = ScopeView;

    open spec fn deep_view(&self) -> ScopeView {
        ScopeView {
            nodes: self.nodes.deep_view(),
            groups: self.groups.deep_view(),
            outline: self.outline.deep_view(),
            pending: self.pending.deep_view(),
        }
    }
}

impl Modelled for Scope {
    fn dup(&self) -> (r: Self) {
        Scope {
            nodes: self.nodes.dup(),
            groups: self.groups.dup(),
            outline: self.outline.dup(),
            pending: self.pending.dup(),
        }
    }

    fn same(&self, other: &Self) -> (r: bool) {
        self.nodes.same(&other.nodes)
            && self.groups.same(&other.groups)
            && self.outline.same(&other.outline)
            && self.pending.same(&other.pending)
    }
}

impl Clone for Scope {
    fn clone(&self) -> (r: Self)
        ensures
            r.deep_view() == self.deep_view(),
    {
        self.dup()
    }
}

/// The relevant set of a read: its scope, and a fingerprint for each element in it.
#[derive(Debug, PartialEq)]
pub struct ReadSet {
    pub scope: Scope,
    pub entries: StrMap<String>,
}

/// The model of a [`ReadSet`].
#[verifier::ext_equal]
pub struct ReadSetView {
    pub scope: ScopeView,
    pub entries: Map<Seq<char>, Seq<char>>,
}

impl DeepView for ReadSet {
    type V = ReadSetView;

    open spec fn deep_view(&self) -> ReadSetView {
        ReadSetView {
            scope: self.scope.deep_view(),
            entries: self.entries.deep_view(),
        }
    }
}

impl Modelled for ReadSet {
    fn dup(&self) -> (r: Self) {
        ReadSet {
            scope: self.scope.dup(),
            entries: self.entries.dup(),
        }
    }

    fn same(&self, other: &Self) -> (r: bool) {
        self.scope.same(&other.scope)
            && self.entries.same(&other.entries)
    }
}

impl Clone for ReadSet {
    fn clone(&self) -> (r: Self)
        ensures
            r.deep_view() == self.deep_view(),
    {
        self.dup()
    }
}

/// One element of the relevant set that moved.
#[derive(Debug, PartialEq, Eq)]
pub struct Difference {
    /// `changed`, `new` or `gone`.
    pub kind: &'static str,
    /// The element in the model's own words.
    pub what: String,
}

/// The model of a [`Difference`].
#[verifier::ext_equal]
pub struct DifferenceView {
    pub kind: Seq<char>,
    pub what: Seq<char>,
}

impl DeepView for Difference {
    type V = DifferenceView;

    open spec fn deep_view(&self) -> DifferenceView {
        DifferenceView { kind: self.kind@, what: self.what@ }
    }
}

/// A difference on a line.
pub open spec fn difference_line(d: DifferenceView) -> Seq<char> {
    d.kind + ": "@ + d.what
}

impl Difference {
    /// The difference on a line.
    pub fn line(&self) -> (r: String)
        ensures
            r@ == difference_line(self.deep_view()),
    {
        cat3(self.kind, ": ", self.what.as_str())
    }
}

impl Default for Scope {
    fn default() -> (r: Self)
        ensures
            r.deep_view() == empty_scope(),
    {
        Scope { nodes: fresh(), groups: fresh(), outline: fresh(), pending: None }
    }
}

/// The scope of a read that showed nothing.
pub open spec fn empty_scope() -> ScopeView {
    ScopeView { nodes: Seq::empty(), groups: Seq::empty(), outline: Seq::empty(), pending: None }
}

/// The scope with its ids in order, each once; a node whose claims were shown is not
/// named beside.
pub open spec fn in_normal_form(s: ScopeView) -> ScopeView {
    ScopeView {
        nodes: ascending(s.nodes.to_set()),
        groups: ascending(s.groups.to_set()),
        outline: ascending(s.outline.to_set().difference(s.nodes.to_set())),
        pending: s.pending,
    }
}

impl Scope {
    /// The scope of a read that showed the claims of these nodes.
    pub fn nodes(ids: Vec<String>) -> (r: Self)
        ensures
            r.deep_view() == (ScopeView { nodes: ids.deep_view(), ..empty_scope() }),
    {
        Scope { nodes: ids, groups: fresh(), outline: fresh(), pending: None }
    }

    /// The scope with its ids in order, each once: two reads that showed the same derive
    /// the same basis, in whatever order the ids came.
    pub fn normalized(&self) -> (r: Self)
        ensures
            r.deep_view() == in_normal_form(self.deep_view()),
    {
        let nodes = StrSet::of(&self.nodes);
        let outline = StrSet::of(&self.outline).minus(&nodes);
        Scope {
            nodes: nodes.list(),
            groups: StrSet::of(&self.groups).list(),
            outline: outline.list(),
            pending: self.pending.dup(),
        }
    }

    /// Did the read show nothing that an edit could be based on?
    pub fn is_empty(&self) -> (r: bool)
        ensures
            r == (self.deep_view() == empty_scope()),
    {
        let r = self.nodes.len() == 0 && self.groups.len() == 0 && self.outline.len() == 0
            && self.pending.is_none();
        proof {
            assert(self.deep_view().nodes.len() == self.nodes@.len());
            assert(self.deep_view().groups.len() == self.groups@.len());
            assert(self.deep_view().outline.len() == self.outline@.len());
            if r {
                assert(self.deep_view() =~= empty_scope());
            }
        }
        r
    }
}

// ---- fingerprints -----------------------------------------------------------------------

/// The separator between the fields of a fingerprint.
pub open spec fn sep() -> Seq<char> {
    "\u{1}"@
}

/// Eight hexadecimal digits of a digest.
pub open spec fn brief(s: Seq<char>) -> Seq<char> {
    digest(s).take(8)
}

fn short(s: &str) -> (r: String)
    ensures
        r@ == brief(s@),
{
    let v = chars_of(digest_of(s).as_str());
    proof {
        lemma_digest_len(s@);
    }
    let r = text_of(&v, 0, 8);
    assert(r@ =~= v@.take(8));
    r
}

proof fn lemma_digest_len(s: Seq<char>)
    ensures
        digest(s).len() == 16,
{
    lemma_hex_len(crate::signoff::fnv(encode_utf8(s)) as nat, 16);
}

proof fn lemma_hex_len(n: nat, width: nat)
    ensures
        crate::text::hex_digits(n, width).len() == width,
    decreases width,
{
    if width > 0 {
        lemma_hex_len(n / 16, (width - 1) as nat);
    }
}

/// A flag in words.
pub open spec fn flag_word(b: bool) -> Seq<char> {
    if b {
        "true"@
    } else {
        "false"@
    }
}

fn flag(o: &Option<bool>) -> (r: String)
    ensures
        r@ == flag_word(*o == Some(true)),
{
    if is_on(o) {
        "true".to_owned()
    } else {
        "false".to_owned()
    }
}

/// What of a claim an edit stands or falls on. Not its tests, its anchors or when it was
/// last touched.
pub open spec fn claim_facts(host: Seq<char>, r: ResponsibilityView) -> Seq<Seq<char>> {
    seq![
        host,
        or_empty(r.title),
        r.statement,
        or_empty(r.concern),
        flag_word(r.vagrant == Some(true)),
        or_empty(r.vagrant_origin),
        or_empty(r.approved_statement),
        flag_word(r.stale == Some(true)),
        or_empty(r.stale_proposal),
        directive_lines(r.directives),
        joined(r.cites, "\u{2}"@),
    ]
}

/// The fingerprint of a claim.
pub open spec fn claim_print(host: Seq<char>, r: ResponsibilityView) -> Seq<char> {
    brief(joined(claim_facts(host, r), sep()))
}

fn print_claim(host: &str, r: &Responsibility) -> (s: String)
    ensures
        s@ == claim_print(host@, r.deep_view()),
{
    let mut parts: Vec<String> = fresh();
    put(&mut parts, host.to_owned());
    put(&mut parts, text_or_empty(&r.title));
    put(&mut parts, r.statement.dup());
    put(&mut parts, text_or_empty(&r.concern));
    put(&mut parts, flag(&r.vagrant));
    put(&mut parts, text_or_empty(&r.vagrant_origin));
    put(&mut parts, text_or_empty(&r.approved_statement));
    put(&mut parts, flag(&r.stale));
    put(&mut parts, text_or_empty(&r.stale_proposal));
    put(&mut parts, directives_rendered(&r.directives));
    put(&mut parts, join(&r.cites, "\u{2}"));
    assert(parts.deep_view() =~= claim_facts(host@, r.deep_view()));
    short(join(&parts, "\u{1}").as_str())
}

/// The inherited directives in one text.
pub open spec fn inherited_text(hs: Seq<InheritedDirectivesView>) -> Seq<char>
    decreases hs.len(),
{
    if hs.len() == 0 {
        Seq::empty()
    } else {
        let h = hs.last();
        inherited_text(hs.drop_last()) + h.node_id + "\u{3}"@ + directive_lines(h.directives)
            + sep()
    }
}

/// A node's own directives and those it inherits, in one text.
pub open spec fn binding_text(m: ScryModelView, id: Seq<char>) -> Seq<char> {
    let own = match first::<Node>(m.nodes, id) {
        Some(n) => directive_lines(n.directives),
        None => Seq::empty(),
    };
    own + sep() + inherited_text(all_handed_down(ancestors(m.nodes, id)))
}

/// The fingerprint of a node's binding directives in both layers.
pub open spec fn directive_print(
    c: ScryModelView,
    p: ScryModelView,
    id: Seq<char>,
) -> Seq<char> {
    brief(binding_text(c, id) + binding_text(p, id))
}

fn binding(m: &ScryModel, id: &str) -> (r: String)
    ensures
        r@ == binding_text(m.deep_view(), id@),
{
    let mut buf = match find(&m.nodes, id) {
        Some(i) => directives_rendered(&at(&m.nodes, i).directives),
        None => {
            let e = String::new();
            assert(e@ =~= Seq::<char>::empty());
            e
        },
    };
    buf.append("\u{1}");
    let ghost start = buf@;
    let hs = inherited_directives(m, id);
    let ghost v = hs.deep_view();
    let mut i: usize = 0;
    assert(v.take(0) =~= Seq::<InheritedDirectivesView>::empty());
    assert(start + inherited_text(v.take(0)) =~= start);
    while i < hs.len()
        invariant
            i <= hs@.len(),
            v == hs.deep_view(),
            buf@ == start + inherited_text(v.take(i as int)),
        decreases hs@.len() - i,
    {
        let h = at(&hs, i);
        let ghost had = inherited_text(v.take(i as int));
        assert(v.take(i + 1).drop_last() =~= v.take(i as int));
        assert(v.take(i + 1).last() == h.deep_view());
        buf.append(h.node_id.as_str());
        buf.append("\u{3}");
        buf.append(directives_rendered(&h.directives).as_str());
        buf.append("\u{1}");
        assert(buf@ =~= start + inherited_text(v.take(i + 1)));
        i += 1;
    }
    assert(v.take(v.len() as int) =~= v);
    buf
}

fn print_directives(c: &ScryModel, p: &ScryModel, id: &str) -> (r: String)
    ensures
        r@ == directive_print(c.deep_view(), p.deep_view(), id@),
{
    short(cat2(binding(c, id).as_str(), binding(p, id).as_str()).as_str())
}

/// What an overview showed of a node: the skeleton and the counts.
pub open spec fn outline_facts(n: NodeView) -> Seq<Seq<char>> {
    seq![
        n.name,
        kind_word(n.kind),
        or_empty(n.parent_id),
        or_empty(n.description),
        decimal(n.responsibilities.len()),
        decimal(n.properties.len()),
    ]
}

/// The fingerprint of what an overview showed of a node.
pub open spec fn outline_print(n: NodeView) -> Seq<char> {
    brief(joined(outline_facts(n), sep()))
}

fn print_outline(n: &Node) -> (r: String)
    ensures
        r@ == outline_print(n.deep_view()),
{
    let claims: usize = n.responsibilities.len();
    let properties: usize = n.properties.len();
    let mut parts: Vec<String> = fresh();
    put(&mut parts, n.name.dup());
    put(&mut parts, kind_words(n.kind).to_owned());
    put(&mut parts, text_or_empty(&n.parent_id));
    put(&mut parts, text_or_empty(&n.description));
    put(&mut parts, dec(claims as u64));
    put(&mut parts, dec(properties as u64));
    assert(parts.deep_view() =~= outline_facts(n.deep_view()));
    short(join(&parts, "\u{1}").as_str())
}

/// One change in JSON.
pub open spec fn change_json(c: ChangeView) -> Seq<char> {
    match c {
        ChangeView::Added => "{\"type\":\"added\"}"@,
        ChangeView::Deleted => "{\"type\":\"deleted\"}"@,
        ChangeView::Moved { from, to } => "{\"type\":\"moved\",\"from\":"@ + json_opt(from)
            + ",\"to\":"@ + json_opt(to) + "}"@,
        ChangeView::Repointed { src_from, src_to, dst_from, dst_to } =>
            "{\"type\":\"repointed\",\"srcFrom\":"@ + json_text(src_from) + ",\"srcTo\":"@
            + json_text(src_to) + ",\"dstFrom\":"@ + json_text(dst_from) + ",\"dstTo\":"@
            + json_text(dst_to) + "}"@,
        ChangeView::Reworded { field, from, to } => "{\"type\":\"reworded\",\"field\":"@
            + json_text(field) + ",\"from\":"@ + json_text(from) + ",\"to\":"@ + json_text(to)
            + "}"@,
        ChangeView::MembersChanged { added, removed } =>
            "{\"type\":\"membersChanged\",\"added\":"@ + json_list(added) + ",\"removed\":"@
            + json_list(removed) + "}"@,
    }
}

fn json_of_change(c: &Change) -> (r: String)
    ensures
        r@ == change_json(c.deep_view()),
{
    match c {
        Change::Added => "{\"type\":\"added\"}".to_owned(),
        Change::Deleted => "{\"type\":\"deleted\"}".to_owned(),
        Change::Moved { from, to } => {
            let mut s = cat2("{\"type\":\"moved\",\"from\":", opt_quoted(from).as_str());
            s.append(",\"to\":");
            s.append(opt_quoted(to).as_str());
            s.append("}");
            s
        },
        Change::Repointed { src_from, src_to, dst_from, dst_to } => {
            let mut s = cat2(
                "{\"type\":\"repointed\",\"srcFrom\":",
                quoted(src_from.as_str()).as_str(),
            );
            s.append(",\"srcTo\":");
            s.append(quoted(src_to.as_str()).as_str());
            s.append(",\"dstFrom\":");
            s.append(quoted(dst_from.as_str()).as_str());
            s.append(",\"dstTo\":");
            s.append(quoted(dst_to.as_str()).as_str());
            s.append("}");
            s
        },
        Change::Reworded { field, from, to } => {
            let mut s = cat2(
                "{\"type\":\"reworded\",\"field\":",
                quoted(field.as_str()).as_str(),
            );
            s.append(",\"from\":");
            s.append(quoted(from.as_str()).as_str());
            s.append(",\"to\":");
            s.append(quoted(to.as_str()).as_str());
            s.append("}");
            s
        },
        Change::MembersChanged { added, removed } => {
            let mut s = cat2(
                "{\"type\":\"membersChanged\",\"added\":",
                list_quoted(added).as_str(),
            );
            s.append(",\"removed\":");
            s.append(list_quoted(removed).as_str());
            s.append("}");
            s
        },
    }
}

/// The changes in JSON, each.
pub open spec fn change_texts(cs: Seq<ChangeView>) -> Seq<Seq<char>> {
    Seq::new(cs.len(), |i: int| change_json(cs[i]))
}

/// A list of changes in JSON.
pub open spec fn changes_json(cs: Seq<ChangeView>) -> Seq<char> {
    "["@ + joined(change_texts(cs), ","@) + "]"@
}

fn json_of_changes(cs: &Vec<Change>) -> (r: String)
    ensures
        r@ == changes_json(cs.deep_view()),
{
    let ghost v = cs.deep_view();
    let ghost want = change_texts(v);
    let mut out: Vec<String> = fresh();
    let mut i: usize = 0;
    assert(want.take(0) =~= Seq::<Seq<char>>::empty());
    while i < cs.len()
        invariant
            i <= cs@.len(),
            v == cs.deep_view(),
            want == change_texts(v),
            out.deep_view() == want.take(i as int),
        decreases cs@.len() - i,
    {
        put(&mut out, json_of_change(at(cs, i)));
        assert(want.take(i + 1) =~= want.take(i as int).push(want[i as int]));
        i += 1;
    }
    assert(want.take(want.len() as int) =~= want);
    cat3("[", join(&out, ",").as_str(), "]")
}

/// The change that an entry is filed under.
pub open spec fn filed_as(p: ScryModelView, ch: ElementChangeView) -> Option<Seq<char>> {
    if p.change_map.contains_key(key_of(ch)) {
        Some(p.change_map[key_of(ch)])
    } else {
        None
    }
}

/// The fingerprint of a pending entry: what the plan says to do to the element, and what
/// change it is filed under.
pub open spec fn pending_print(p: ScryModelView, ch: ElementChangeView) -> Seq<char> {
    brief(or_empty(filed_as(p, ch)) + sep() + changes_json(ch.changes))
}

fn filing(p: &ScryModel, ch: &ElementChange) -> (r: Option<String>)
    ensures
        r.deep_view() == filed_as(p.deep_view(), ch.deep_view()),
{
    match p.change_map.get(key_for(ch).as_str()) {
        Some(c) => Some(c.clone()),
        None => None,
    }
}

fn print_pending(p: &ScryModel, ch: &ElementChange) -> (r: String)
    ensures
        r@ == pending_print(p.deep_view(), ch.deep_view()),
{
    let filed = text_or_empty(&filing(p, ch));
    short(cat3(filed.as_str(), "\u{1}", json_of_changes(&ch.changes).as_str()).as_str())
}

// ---- the relevant set -------------------------------------------------------------------

/// The entries of a list of claims added, under the mark of their layer.
pub open spec fn with_claims(
    layer: Seq<char>,
    host: Seq<char>,
    rs: Seq<ResponsibilityView>,
    es: Map<Seq<char>, Seq<char>>,
) -> Map<Seq<char>, Seq<char>>
    decreases rs.len(),
{
    if rs.len() == 0 {
        es
    } else {
        let r = rs.last();
        with_claims(layer, host, rs.drop_last(), es).insert(
            layer + ":"@ + r.id,
            claim_print(host, r),
        )
    }
}

/// The entries of the claims of a layer's node added.
pub open spec fn with_node_claims(
    layer: Seq<char>,
    m: ScryModelView,
    id: Seq<char>,
    es: Map<Seq<char>, Seq<char>>,
) -> Map<Seq<char>, Seq<char>> {
    match first::<Node>(m.nodes, id) {
        Some(n) => with_claims(layer, n.id, n.responsibilities, es),
        None => es,
    }
}

/// The entries of the claims of a layer's group added.
pub open spec fn with_group_claims(
    layer: Seq<char>,
    m: ScryModelView,
    id: Seq<char>,
    es: Map<Seq<char>, Seq<char>>,
) -> Map<Seq<char>, Seq<char>> {
    match first::<Group>(m.groups, id) {
        Some(g) => with_claims(layer, g.id, g.responsibilities, es),
        None => es,
    }
}

/// The entry of what the plan's outline shows of a node added.
pub open spec fn with_outline(
    p: ScryModelView,
    id: Seq<char>,
    es: Map<Seq<char>, Seq<char>>,
) -> Map<Seq<char>, Seq<char>> {
    match first::<Node>(p.nodes, id) {
        Some(n) => es.insert("o:"@ + n.id, outline_print(n)),
        None => es,
    }
}

/// The entries of a node whose claims were shown added: its binding directives, its
/// claims in both layers, its outline.
pub open spec fn with_node(
    c: ScryModelView,
    p: ScryModelView,
    id: Seq<char>,
    es: Map<Seq<char>, Seq<char>>,
) -> Map<Seq<char>, Seq<char>> {
    let directed = es.insert("d:"@ + id, directive_print(c, p, id));
    let committed = with_node_claims("c"@, c, id, directed);
    with_outline(p, id, with_node_claims("p"@, p, id, committed))
}

/// The entries of the nodes added.
pub open spec fn with_nodes(
    c: ScryModelView,
    p: ScryModelView,
    ids: Seq<Seq<char>>,
    es: Map<Seq<char>, Seq<char>>,
) -> Map<Seq<char>, Seq<char>>
    decreases ids.len(),
{
    if ids.len() == 0 {
        es
    } else {
        with_node(c, p, ids.last(), with_nodes(c, p, ids.drop_last(), es))
    }
}

/// The entries of the groups added.
pub open spec fn with_groups(
    c: ScryModelView,
    p: ScryModelView,
    ids: Seq<Seq<char>>,
    es: Map<Seq<char>, Seq<char>>,
) -> Map<Seq<char>, Seq<char>>
    decreases ids.len(),
{
    if ids.len() == 0 {
        es
    } else {
        let before = with_groups(c, p, ids.drop_last(), es);
        with_group_claims("p"@, p, ids.last(), with_group_claims("c"@, c, ids.last(), before))
    }
}

/// The entries of the outlines added.
pub open spec fn with_outlines(
    p: ScryModelView,
    ids: Seq<Seq<char>>,
    es: Map<Seq<char>, Seq<char>>,
) -> Map<Seq<char>, Seq<char>>
    decreases ids.len(),
{
    if ids.len() == 0 {
        es
    } else {
        with_outline(p, ids.last(), with_outlines(p, ids.drop_last(), es))
    }
}

/// Is an optional id among those of a list?
pub open spec fn among(o: Option<Seq<char>>, ids: Seq<Seq<char>>) -> bool {
    o is Some && ids.contains(o->0)
}

/// Do the nodes or groups of the scope own the change?
pub open spec fn owned_in(s: ScopeView, ch: ElementChangeView) -> bool {
    match ch.kind {
        ElementKind::Node => s.nodes.contains(ch.id),
        ElementKind::Responsibility => among(ch.owner_id, s.nodes) || among(
            ch.owner_id,
            s.groups,
        ),
        ElementKind::Property => among(ch.owner_id, s.nodes) || among(ch.owner_id, s.groups),
        ElementKind::Group => s.groups.contains(ch.id),
        ElementKind::Link => among(ch.from, s.nodes) || among(ch.to, s.nodes),
    }
}

/// Does the scope ask for the change by what it is filed under?
pub open spec fn asked_for(p: ScryModelView, s: ScopeView, ch: ElementChangeView) -> bool {
    match s.pending {
        None => false,
        Some(want) => if want == "*"@ {
            true
        } else if want == "unfiled"@ {
            filed_as(p, ch) is None
        } else {
            filed_as(p, ch) == Some(want)
        },
    }
}

/// The entries of the pending changes in scope added.
pub open spec fn with_pending(
    p: ScryModelView,
    s: ScopeView,
    chs: Seq<ElementChangeView>,
    es: Map<Seq<char>, Seq<char>>,
) -> Map<Seq<char>, Seq<char>>
    decreases chs.len(),
{
    if chs.len() == 0 {
        es
    } else {
        let before = with_pending(p, s, chs.drop_last(), es);
        let ch = chs.last();
        if owned_in(s, ch) || asked_for(p, s, ch) {
            before.insert("e:"@ + key_of(ch), pending_print(p, ch))
        } else {
            before
        }
    }
}

/// The entries of the relevant set of a scope in normal form.
pub open spec fn relevant_entries(
    c: ScryModelView,
    p: ScryModelView,
    s: ScopeView,
) -> Map<Seq<char>, Seq<char>> {
    with_pending(
        p,
        s,
        not_vagrant(p, diff_of(c, p)),
        with_outlines(p, s.outline, with_groups(c, p, s.groups, with_nodes(c, p, s.nodes, Map::empty()))),
    )
}

/// The relevant set of a scope, of a plan from which the entries under the `binned` element
/// keys are set aside.
pub open spec fn relevant_set_without(
    c: ScryModelView,
    p: ScryModelView,
    s: ScopeView,
    binned: Seq<Seq<char>>,
) -> ReadSetView {
    let scope = in_normal_form(s);
    ReadSetView {
        scope,
        entries: with_pending(
            p,
            scope,
            not_vagrant(p, not_binned(diff_of(c, p), binned)),
            with_outlines(
                p,
                scope.outline,
                with_groups(
                    c,
                    p,
                    scope.groups,
                    with_nodes(c, p, scope.nodes, Map::empty()),
                ),
            ),
        ),
    }
}

/// With nothing set aside the relevant set is that of the whole plan.
pub proof fn law_nothing_set_aside(c: ScryModelView, p: ScryModelView, s: ScopeView)
    ensures
        relevant_set_without(c, p, s, Seq::empty()) == relevant_set(c, p, s),
{
    law_nothing_binned(diff_of(c, p));
}

/// The relevant set of a scope.
pub open spec fn relevant_set(c: ScryModelView, p: ScryModelView, s: ScopeView) -> ReadSetView {
    let scope = in_normal_form(s);
    ReadSetView { scope, entries: relevant_entries(c, p, scope) }
}

fn add_claims(entries: &mut StrMap<String>, layer: &str, host: &str, claims: &Vec<Responsibility>)
    ensures
        final(entries).deep_view() == with_claims(
            layer@,
            host@,
            claims.deep_view(),
            old(entries).deep_view(),
        ),
{
    let ghost v = claims.deep_view();
    let ghost e0 = entries.deep_view();
    let mut i: usize = 0;
    assert(v.take(0) =~= Seq::<ResponsibilityView>::empty());
    while i < claims.len()
        invariant
            i <= claims@.len(),
            v == claims.deep_view(),
            entries.deep_view() == with_claims(layer@, host@, v.take(i as int), e0),
        decreases claims@.len() - i,
    {
        let r = at(claims, i);
        assert(v.take(i + 1).drop_last() =~= v.take(i as int));
        assert(v.take(i + 1).last() == r.deep_view());
        entries.insert(cat3(layer, ":", r.id.as_str()), print_claim(host, r));
        i += 1;
    }
    assert(v.take(v.len() as int) =~= v);
}

fn add_node_claims(entries: &mut StrMap<String>, layer: &str, m: &ScryModel, id: &str)
    ensures
        final(entries).deep_view() == with_node_claims(
            layer@,
            m.deep_view(),
            id@,
            old(entries).deep_view(),
        ),
{
    match find(&m.nodes, id) {
        Some(i) => {
            let n = at(&m.nodes, i);
            add_claims(entries, layer, n.id.as_str(), &n.responsibilities);
        },
        None => {},
    }
}

fn add_group_claims(entries: &mut StrMap<String>, layer: &str, m: &ScryModel, id: &str)
    ensures
        final(entries).deep_view() == with_group_claims(
            layer@,
            m.deep_view(),
            id@,
            old(entries).deep_view(),
        ),
{
    match find(&m.groups, id) {
        Some(i) => {
            let g = at(&m.groups, i);
            add_claims(entries, layer, g.id.as_str(), &g.responsibilities);
        },
        None => {},
    }
}

fn add_outline(entries: &mut StrMap<String>, p: &ScryModel, id: &str)
    ensures
        final(entries).deep_view() == with_outline(p.deep_view(), id@, old(entries).deep_view()),
{
    match find(&p.nodes, id) {
        Some(i) => {
            let n = at(&p.nodes, i);
            entries.insert(cat2("o:", n.id.as_str()), print_outline(n));
        },
        None => {},
    }
}

fn is_among(o: &Option<String>, ids: &Vec<String>) -> (r: bool)
    ensures
        r == among(o.deep_view(), ids.deep_view()),
{
    match o {
        Some(s) => holds(ids, s.as_str()),
        None => false,
    }
}

fn is_owned(s: &Scope, ch: &ElementChange) -> (r: bool)
    ensures
        r == owned_in(s.deep_view(), ch.deep_view()),
{
    match ch.kind {
        ElementKind::Node => holds(&s.nodes, ch.id.as_str()),
        ElementKind::Responsibility => is_among(&ch.owner_id, &s.nodes) || is_among(
            &ch.owner_id,
            &s.groups,
        ),
        ElementKind::Property => is_among(&ch.owner_id, &s.nodes) || is_among(
            &ch.owner_id,
            &s.groups,
        ),
        ElementKind::Group => holds(&s.groups, ch.id.as_str()),
        ElementKind::Link => is_among(&ch.from, &s.nodes) || is_among(&ch.to, &s.nodes),
    }
}

fn is_asked_for(p: &ScryModel, s: &Scope, ch: &ElementChange) -> (r: bool)
    ensures
        r == asked_for(p.deep_view(), s.deep_view(), ch.deep_view()),
{
    match &s.pending {
        None => false,
        Some(want) => {
            if same_text(want.as_str(), "*") {
                true
            } else {
                let filed = filing(p, ch);
                if same_text(want.as_str(), "unfiled") {
                    filed.is_none()
                } else {
                    match &filed {
                        Some(c) => same_text(c.as_str(), want.as_str()),
                        None => false,
                    }
                }
            }
        },
    }
}

fn add_pending(
    entries: &mut StrMap<String>,
    c: &ScryModel,
    p: &ScryModel,
    s: &Scope,
    binned: &Vec<String>,
)
    ensures
        final(entries).deep_view() == with_pending(
            p.deep_view(),
            s.deep_view(),
            not_vagrant(
                p.deep_view(),
                not_binned(diff_of(c.deep_view(), p.deep_view()), binned.deep_view()),
            ),
            old(entries).deep_view(),
        ),
{
    let chs = pending_elements_without(c, p, binned);
    let ghost v = chs.deep_view();
    let ghost e0 = entries.deep_view();
    let mut i: usize = 0;
    assert(v.take(0) =~= Seq::<ElementChangeView>::empty());
    while i < chs.len()
        invariant
            i <= chs@.len(),
            v == chs.deep_view(),
            entries.deep_view() == with_pending(
                p.deep_view(),
                s.deep_view(),
                v.take(i as int),
                e0,
            ),
        decreases chs@.len() - i,
    {
        let ch = at(&chs, i);
        assert(v.take(i + 1).drop_last() =~= v.take(i as int));
        assert(v.take(i + 1).last() == ch.deep_view());
        if is_owned(s, ch) || is_asked_for(p, s, ch) {
            entries.insert(cat2("e:", key_for(ch).as_str()), print_pending(p, ch));
        }
        i += 1;
    }
    assert(v.take(v.len() as int) =~= v);
}

/// The relevant set of a scope, from the two layers as they stand, without the entries
/// that are set aside under the `binned` element keys.
pub fn read_set_without(
    committed: &ScryModel,
    planned: &ScryModel,
    scope: &Scope,
    binned: &Vec<String>,
) -> (r: ReadSet)
    ensures
        r.deep_view() == relevant_set_without(
            committed.deep_view(),
            planned.deep_view(),
            scope.deep_view(),
            binned.deep_view(),
        ),
{
    let ghost c = committed.deep_view();
    let ghost p = planned.deep_view();
    let scope = scope.normalized();
    let ghost s = scope.deep_view();
    let mut entries: StrMap<String> = StrMap::new();
    let mut i: usize = 0;
    assert(s.nodes.take(0) =~= Seq::<Seq<char>>::empty());
    while i < scope.nodes.len()
        invariant
            i <= scope.nodes@.len(),
            c == committed.deep_view(),
            p == planned.deep_view(),
            s == scope.deep_view(),
            entries.deep_view() == with_nodes(c, p, s.nodes.take(i as int), Map::empty()),
        decreases scope.nodes@.len() - i,
    {
        let id = at(&scope.nodes, i);
        assert(s.nodes.take(i + 1).drop_last() =~= s.nodes.take(i as int));
        assert(s.nodes.take(i + 1).last() == id@);
        entries.insert(cat2("d:", id.as_str()), print_directives(committed, planned, id.as_str()));
        add_node_claims(&mut entries, "c", committed, id.as_str());
        add_node_claims(&mut entries, "p", planned, id.as_str());
        add_outline(&mut entries, planned, id.as_str());
        i += 1;
    }
    assert(s.nodes.take(s.nodes.len() as int) =~= s.nodes);
    let ghost e1 = entries.deep_view();
    i = 0;
    assert(s.groups.take(0) =~= Seq::<Seq<char>>::empty());
    while i < scope.groups.len()
        invariant
            i <= scope.groups@.len(),
            c == committed.deep_view(),
            p == planned.deep_view(),
            s == scope.deep_view(),
            entries.deep_view() == with_groups(c, p, s.groups.take(i as int), e1),
        decreases scope.groups@.len() - i,
    {
        let id = at(&scope.groups, i);
        assert(s.groups.take(i + 1).drop_last() =~= s.groups.take(i as int));
        assert(s.groups.take(i + 1).last() == id@);
        add_group_claims(&mut entries, "c", committed, id.as_str());
        add_group_claims(&mut entries, "p", planned, id.as_str());
        i += 1;
    }
    assert(s.groups.take(s.groups.len() as int) =~= s.groups);
    let ghost e2 = entries.deep_view();
    i = 0;
    assert(s.outline.take(0) =~= Seq::<Seq<char>>::empty());
    while i < scope.outline.len()
        invariant
            i <= scope.outline@.len(),
            p == planned.deep_view(),
            s == scope.deep_view(),
            entries.deep_view() == with_outlines(p, s.outline.take(i as int), e2),
        decreases scope.outline@.len() - i,
    {
        let id = at(&scope.outline, i);
        assert(s.outline.take(i + 1).drop_last() =~= s.outline.take(i as int));
        assert(s.outline.take(i + 1).last() == id@);
        add_outline(&mut entries, planned, id.as_str());
        i += 1;
    }
    assert(s.outline.take(s.outline.len() as int) =~= s.outline);
    add_pending(&mut entries, committed, planned, &scope, binned);
    ReadSet { scope, entries }
}

/// The relevant set of a scope, from the two layers as they stand.
pub fn read_set(committed: &ScryModel, planned: &ScryModel, scope: &Scope) -> (r: ReadSet)
    ensures
        r.deep_view() == relevant_set(
            committed.deep_view(),
            planned.deep_view(),
            scope.deep_view(),
        ),
{
    proof {
        law_nothing_set_aside(committed.deep_view(), planned.deep_view(), scope.deep_view());
    }
    read_set_without(committed, planned, scope, &fresh())
}

// ---- what moved -------------------------------------------------------------------------

/// The words of a text so far, with one space between them, and whether white space has
/// been met since the last.
pub open spec fn flat_state(s: Seq<char>) -> (Seq<char>, bool)
    decreases s.len(),
{
    if s.len() == 0 {
        (Seq::empty(), false)
    } else {
        let (out, pending) = flat_state(s.drop_last());
        if is_white(s.last()) {
            (out, true)
        } else if pending && out.len() > 0 {
            (out.push(' ').push(s.last()), false)
        } else {
            (out.push(s.last()), false)
        }
    }
}

/// The words of a text with one space between them.
pub open spec fn flattened(s: Seq<char>) -> Seq<char> {
    flat_state(s).0
}

/// The words of a text with one space between them, cut off after 70 characters.
pub open spec fn cut(s: Seq<char>) -> Seq<char> {
    let flat = flattened(s);
    if flat.len() <= 70 {
        flat
    } else {
        flat.take(70) + "…"@
    }
}

fn ellipsis(s: &str) -> (r: String)
    ensures
        r@ == cut(s@),
{
    let v = chars_of(s);
    let mut flat: Vec<char> = Vec::new();
    let mut pending = false;
    let mut i: usize = 0;
    assert(v@.take(0) =~= Seq::<char>::empty());
    while i < v.len()
        invariant
            i <= v@.len(),
            (flat@, pending) == flat_state(v@.take(i as int)),
        decreases v@.len() - i,
    {
        assert(v@.take(i + 1).drop_last() =~= v@.take(i as int));
        assert(v@.take(i + 1).last() == v@[i as int]);
        if white(v[i]) {
            pending = true;
        } else {
            if pending && flat.len() > 0 {
                flat.push(' ');
            }
            flat.push(v[i]);
            pending = false;
        }
        i += 1;
    }
    assert(v@.take(v@.len() as int) =~= v@);
    if flat.len() <= 70 {
        let r = text_of(&flat, 0, flat.len());
        assert(r@ =~= flat@);
        r
    } else {
        let head = text_of(&flat, 0, 70);
        assert(head@ =~= flat@.take(70));
        cat2(head.as_str(), "…")
    }
}

/// The first claim called `id` of the nodes: its host and its statement.
pub open spec fn claim_in_nodes(ns: Seq<NodeView>, id: Seq<char>) -> Option<(Seq<char>, Seq<char>)>
    decreases ns.len(),
{
    if ns.len() == 0 {
        None
    } else {
        match first::<Responsibility>(ns[0].responsibilities, id) {
            Some(r) => Some((ns[0].id, r.statement)),
            None => claim_in_nodes(ns.drop_first(), id),
        }
    }
}

/// The first claim called `id` of the groups: its host and its statement.
pub open spec fn claim_in_groups(gs: Seq<GroupView>, id: Seq<char>) -> Option<
    (Seq<char>, Seq<char>),
>
    decreases gs.len(),
{
    if gs.len() == 0 {
        None
    } else {
        match first::<Responsibility>(gs[0].responsibilities, id) {
            Some(r) => Some((gs[0].id, r.statement)),
            None => claim_in_groups(gs.drop_first(), id),
        }
    }
}

/// The first claim called `id` of a layer: its host and its statement.
pub open spec fn claim_in_layer(m: ScryModelView, id: Seq<char>) -> Option<(Seq<char>, Seq<char>)> {
    match claim_in_nodes(m.nodes, id) {
        Some(x) => Some(x),
        None => claim_in_groups(m.groups, id),
    }
}

/// The claim called `id`, in the plan or else in the committed model.
pub open spec fn claim_anywhere(
    c: ScryModelView,
    p: ScryModelView,
    id: Seq<char>,
) -> Option<(Seq<char>, Seq<char>)> {
    match claim_in_layer(p, id) {
        Some(x) => Some(x),
        None => claim_in_layer(c, id),
    }
}

fn find_in_layer(m: &ScryModel, id: &str) -> (r: Option<(String, String)>)
    ensures
        r.deep_view() == claim_in_layer(m.deep_view(), id@),
{
    let ghost ns = m.nodes.deep_view();
    let ghost gs = m.groups.deep_view();
    let mut i: usize = 0;
    assert(ns.skip(0) =~= ns);
    while i < m.nodes.len()
        invariant
            i <= m.nodes@.len(),
            ns == m.nodes.deep_view(),
            claim_in_nodes(ns, id@) == claim_in_nodes(ns.skip(i as int), id@),
        decreases m.nodes@.len() - i,
    {
        let n = at(&m.nodes, i);
        assert(ns.skip(i as int)[0] == n.deep_view());
        assert(ns.skip(i as int).drop_first() =~= ns.skip(i + 1));
        match find(&n.responsibilities, id) {
            Some(k) => {
                let r = at(&n.responsibilities, k);
                return Some((n.id.clone(), r.statement.clone()));
            },
            None => {},
        }
        i += 1;
    }
    i = 0;
    assert(gs.skip(0) =~= gs);
    while i < m.groups.len()
        invariant
            i <= m.groups@.len(),
            ns == m.nodes.deep_view(),
            gs == m.groups.deep_view(),
            claim_in_nodes(ns, id@) is None,
            claim_in_groups(gs, id@) == claim_in_groups(gs.skip(i as int), id@),
        decreases m.groups@.len() - i,
    {
        let g = at(&m.groups, i);
        assert(gs.skip(i as int)[0] == g.deep_view());
        assert(gs.skip(i as int).drop_first() =~= gs.skip(i + 1));
        match find(&g.responsibilities, id) {
            Some(k) => {
                let r = at(&g.responsibilities, k);
                return Some((g.id.clone(), r.statement.clone()));
            },
            None => {},
        }
        i += 1;
    }
    None
}

/// A claim of a layer in the model's own words.
pub open spec fn claim_words(
    c: ScryModelView,
    p: ScryModelView,
    layer: Seq<char>,
    id: Seq<char>,
) -> Seq<char> {
    match claim_anywhere(c, p, id) {
        Some((host, statement)) => "the "@ + layer + " claim "@ + id + " on "@ + host + " (\""@
            + cut(statement) + "\")"@,
        None => "the "@ + layer + " claim "@ + id + " (no longer in the model)"@,
    }
}

/// An element of the relevant set in the model's own words.
pub open spec fn described(c: ScryModelView, p: ScryModelView, key: Seq<char>) -> Seq<char> {
    if key.contains(':') {
        let i = first_place(key, ':');
        let tag = key.take(i);
        let id = key.skip(i + 1);
        if tag == "c"@ {
            claim_words(c, p, "committed"@, id)
        } else if tag == "p"@ {
            claim_words(c, p, "planned"@, id)
        } else if tag == "d"@ {
            "the binding directives of "@ + id
        } else if tag == "o"@ {
            "the outline of "@ + id + " (its name, kind, parent or claim count)"@
        } else if tag == "e"@ {
            "the pending entry "@ + id
        } else {
            key
        }
    } else {
        key
    }
}

fn words_of_claim(c: &ScryModel, p: &ScryModel, layer: &str, id: &str) -> (r: String)
    ensures
        r@ == claim_words(c.deep_view(), p.deep_view(), layer@, id@),
{
    let mut s = cat3("the ", layer, " claim ");
    s.append(id);
    let hit = match find_in_layer(p, id) {
        Some(x) => Some(x),
        None => find_in_layer(c, id),
    };
    match hit {
        Some((host, statement)) => {
            s.append(" on ");
            s.append(host.as_str());
            s.append(" (\"");
            s.append(ellipsis(statement.as_str()).as_str());
            s.append("\")");
        },
        None => {
            s.append(" (no longer in the model)");
        },
    }
    s
}

fn describe(committed: &ScryModel, planned: &ScryModel, key: &str) -> (r: String)
    ensures
        r@ == described(committed.deep_view(), planned.deep_view(), key@),
{
    match split_once(key, ':') {
        None => key.to_owned(),
        Some((tag, id)) => {
            if same_text(tag, "c") {
                words_of_claim(committed, planned, "committed", id)
            } else if same_text(tag, "p") {
                words_of_claim(committed, planned, "planned", id)
            } else if same_text(tag, "d") {
                cat2("the binding directives of ", id)
            } else if same_text(tag, "o") {
                cat3("the outline of ", id, " (its name, kind, parent or claim count)")
            } else if same_text(tag, "e") {
                cat2("the pending entry ", id)
            } else {
                key.to_owned()
            }
        },
    }
}

/// How an element moved between two sets: `changed`, `new` or `gone`.
pub open spec fn how_moved(
    was: Map<Seq<char>, Seq<char>>,
    is_now: Map<Seq<char>, Seq<char>>,
    key: Seq<char>,
) -> Option<Seq<char>> {
    if was.contains_key(key) && is_now.contains_key(key) {
        if was[key] == is_now[key] {
            None
        } else {
            Some("changed"@)
        }
    } else if is_now.contains_key(key) {
        Some("new"@)
    } else if was.contains_key(key) {
        Some("gone"@)
    } else {
        None
    }
}

/// What moved of the elements at `keys`.
pub open spec fn moved_among(
    c: ScryModelView,
    p: ScryModelView,
    was: Map<Seq<char>, Seq<char>>,
    is_now: Map<Seq<char>, Seq<char>>,
    keys: Seq<Seq<char>>,
) -> Seq<DifferenceView>
    decreases keys.len(),
{
    if keys.len() == 0 {
        Seq::empty()
    } else {
        let before = moved_among(c, p, was, is_now, keys.drop_last());
        match how_moved(was, is_now, keys.last()) {
            Some(kind) => before.push(DifferenceView { kind, what: described(c, p, keys.last()) }),
            None => before,
        }
    }
}

/// What moved between two relevant sets, in the order of the keys.
pub open spec fn moved(
    c: ScryModelView,
    p: ScryModelView,
    was: ReadSetView,
    is_now: ReadSetView,
) -> Seq<DifferenceView> {
    moved_among(
        c,
        p,
        was.entries,
        is_now.entries,
        ascending(was.entries.dom().union(is_now.entries.dom())),
    )
}

/// What moved in the relevant set between the basis and now. Nothing: the basis is
/// current, and the write may land.
pub fn differences(
    committed: &ScryModel,
    planned: &ScryModel,
    basis: &ReadSet,
    now: &ReadSet,
) -> (r: Vec<Difference>)
    ensures
        r.deep_view() == moved(
            committed.deep_view(),
            planned.deep_view(),
            basis.deep_view(),
            now.deep_view(),
        ),
{
    let ghost c = committed.deep_view();
    let ghost p = planned.deep_view();
    let ghost was = basis.entries.deep_view();
    let ghost is_now = now.entries.deep_view();
    let mut keys = StrSet::of(&basis.entries.keys());
    let more = StrSet::of(&now.entries.keys());
    keys.merge(&more);
    assert(keys.deep_view() =~= was.dom().union(is_now.dom()));
    let list = keys.list();
    let ghost kv = list.deep_view();
    let mut out: Vec<Difference> = fresh();
    let mut i: usize = 0;
    assert(kv.take(0) =~= Seq::<Seq<char>>::empty());
    while i < list.len()
        invariant
            i <= list@.len(),
            c == committed.deep_view(),
            p == planned.deep_view(),
            was == basis.entries.deep_view(),
            is_now == now.entries.deep_view(),
            kv == list.deep_view(),
            out.deep_view() == moved_among(c, p, was, is_now, kv.take(i as int)),
        decreases list@.len() - i,
    {
        let key = at(&list, i);
        assert(kv.take(i + 1).drop_last() =~= kv.take(i as int));
        assert(kv.take(i + 1).last() == key@);
        let kind: Option<&'static str> = match (
            basis.entries.get(key.as_str()),
            now.entries.get(key.as_str()),
        ) {
            (Some(a), Some(b)) => {
                if same_text(a.as_str(), b.as_str()) {
                    None
                } else {
                    Some("changed")
                }
            },
            (None, Some(_)) => Some("new"),
            (Some(_), None) => Some("gone"),
            (None, None) => None,
        };
        match kind {
            Some(k) => {
                put(
                    &mut out,
                    Difference { kind: k, what: describe(committed, planned, key.as_str()) },
                );
            },
            None => {},
        }
        i += 1;
    }
    assert(kv.take(kv.len() as int) =~= kv);
    out
}

// ---- the token --------------------------------------------------------------------------

/// A member of a JSON object.
pub open spec fn member(name: Seq<char>, value: Seq<char>) -> Seq<char> {
    json_text(name) + ":"@ + value
}

/// A list as a member of an object: left out where it is empty.
pub open spec fn list_member(name: Seq<char>, xs: Seq<Seq<char>>) -> Seq<Seq<char>> {
    if xs.len() == 0 {
        Seq::empty()
    } else {
        seq![member(name, json_list(xs))]
    }
}

/// The members of a scope in JSON.
pub open spec fn scope_members(s: ScopeView) -> Seq<Seq<char>> {
    list_member("n"@, s.nodes) + list_member("g"@, s.groups) + list_member("o"@, s.outline) + (
    match s.pending {
        Some(p) => seq![member("p"@, json_text(p))],
        None => Seq::empty(),
    })
}

/// The entries in JSON, in the order of their keys.
pub open spec fn entry_members(es: Map<Seq<char>, Seq<char>>, keys: Seq<Seq<char>>) -> Seq<
    Seq<char>,
> {
    Seq::new(keys.len(), |i: int| member(keys[i], json_text(es[keys[i]])))
}

/// A JSON object of its members.
pub open spec fn object_of(members: Seq<Seq<char>>) -> Seq<char> {
    "{"@ + joined(members, ","@) + "}"@
}

/// A relevant set in JSON.
pub open spec fn set_text(rs: ReadSetView) -> Seq<char> {
    object_of(
        seq![
            member("s"@, object_of(scope_members(rs.scope))),
            member("k"@, object_of(entry_members(rs.entries, ascending(rs.entries.dom())))),
        ],
    )
}

fn json_member(name: &str, value: &str) -> (r: String)
    ensures
        r@ == member(name@, value@),
{
    cat3(quoted(name).as_str(), ":", value)
}

fn add_list(name: &str, xs: &Vec<String>, out: &mut Vec<String>)
    ensures
        final(out).deep_view() == old(out).deep_view() + list_member(name@, xs.deep_view()),
{
    let ghost o = out.deep_view();
    if xs.len() > 0 {
        let m = json_member(name, list_quoted(xs).as_str());
        assert(o.push(m@) =~= o + seq![m@]);
        put(out, m);
    } else {
        assert(o =~= o + Seq::<Seq<char>>::empty());
    }
}

fn json_of_scope(s: &Scope) -> (r: String)
    ensures
        r@ == object_of(scope_members(s.deep_view())),
{
    let mut ms: Vec<String> = fresh();
    add_list("n", &s.nodes, &mut ms);
    add_list("g", &s.groups, &mut ms);
    add_list("o", &s.outline, &mut ms);
    match &s.pending {
        Some(p) => {
            put(&mut ms, json_member("p", quoted(p.as_str()).as_str()));
        },
        None => {},
    }
    assert(ms.deep_view() =~= scope_members(s.deep_view()));
    cat3("{", join(&ms, ",").as_str(), "}")
}

fn json_of_entries(es: &StrMap<String>) -> (r: String)
    ensures
        r@ == object_of(
            entry_members(es.deep_view(), ascending(es.deep_view().dom())),
        ),
{
    let n: usize = es.len();
    let ghost ev = es.deep_view();
    let ghost ks = ascending(ev.dom());
    let ghost want = entry_members(ev, ks);
    let mut ms: Vec<String> = fresh();
    let mut i: usize = 0;
    assert(want.take(0) =~= Seq::<Seq<char>>::empty());
    while i < n
        invariant
            i <= n == ks.len(),
            ev == es.deep_view(),
            ks == ascending(ev.dom()),
            want == entry_members(ev, ks),
            ms.deep_view() == want.take(i as int),
        decreases n - i,
    {
        let v = es.value_at(i);
        put(&mut ms, json_member(es.key_at(i).as_str(), quoted(v.as_str()).as_str()));
        assert(want.take(i + 1) =~= want.take(i as int).push(want[i as int]));
        i += 1;
    }
    assert(want.take(n as int) =~= want);
    cat3("{", join(&ms, ",").as_str(), "}")
}

fn json_of_set(set: &ReadSet) -> (r: String)
    ensures
        r@ == set_text(set.deep_view()),
{
    let mut ms: Vec<String> = fresh();
    put(&mut ms, json_member("s", json_of_scope(&set.scope).as_str()));
    put(&mut ms, json_member("k", json_of_entries(&set.entries).as_str()));
    let ghost rs = set.deep_view();
    assert(ms.deep_view() =~= seq![
        member("s"@, object_of(scope_members(rs.scope))),
        member("k"@, object_of(entry_members(rs.entries, ascending(rs.entries.dom())))),
    ]);
    cat3("{", join(&ms, ",").as_str(), "}")
}

/// Bytes compressed, where that can be done.
pub uninterp spec fn deflated(bytes: Seq<u8>) -> Option<Seq<u8>>;

/// `flate2::write::DeflateEncoder` at its best compression, over the whole of the bytes:
/// what it writes, or nothing where it fails. How the bytes are compressed is not stated.
#[verifier::external_body]
fn deflate(bytes: &[u8]) -> (r: Option<Vec<u8>>)
    ensures
        match r {
            Some(v) => deflated(bytes@) == Some(v@),
            None => deflated(bytes@) is None,
        },
{
    let mut d = flate2::write::DeflateEncoder::new(Vec::new(), flate2::Compression::best());
    d.write_all(bytes).and_then(|()| d.finish()).ok()
}

/// Compressed bytes decompressed, or what is wrong with them.
pub uninterp spec fn inflated(bytes: Seq<u8>) -> Result<Seq<u8>, Seq<char>>;

/// `flate2::read::DeflateDecoder`, read to its end: the bytes that were compressed, or
/// what is wrong. Bytes that `flate2::write::DeflateEncoder` wrote come back as they were;
/// what becomes of others is not stated.
#[verifier::external_body]
fn inflate(bytes: &Vec<u8>) -> (r: Result<Vec<u8>, String>)
    ensures
        match r {
            Ok(v) => inflated(bytes@) == Ok::<_, Seq<char>>(v@),
            Err(e) => inflated(bytes@) == Err::<Seq<u8>, _>(e@),
        },
        forall|b: Seq<u8>| #[trigger] deflated(b) == Some(bytes@) ==> r is Ok && r->Ok_0@ == b,
{
    let mut out = Vec::new();
    match flate2::read::DeflateDecoder::new(&bytes[..]).read_to_end(&mut out) {
        Ok(_) => Ok(out),
        Err(e) => Err(e.to_string()),
    }
}

/// Bytes as a text of letters, digits, `-` and `_`.
pub uninterp spec fn base64_text(bytes: Seq<u8>) -> Seq<char>;

/// `base64`'s `URL_SAFE_NO_PAD` engine, encoding: the bytes as a text. How they are
/// written is not stated.
#[verifier::external_body]
fn to_base64(bytes: &Vec<u8>) -> (r: String)
    ensures
        r@ == base64_text(bytes@),
{
    base64::engine::general_purpose::URL_SAFE_NO_PAD.encode(bytes)
}

/// The bytes that a text stands for, or what is wrong with it.
pub uninterp spec fn base64_bytes(text: Seq<char>) -> Result<Seq<u8>, Seq<char>>;

/// `base64`'s `URL_SAFE_NO_PAD` engine, decoding: the bytes that the text stands for, or
/// what is wrong with it. A text that the engine wrote comes back as the bytes it was
/// written from; what becomes of others is not stated.
#[verifier::external_body]
fn from_base64(text: &str) -> (r: Result<Vec<u8>, String>)
    ensures
        match r {
            Ok(v) => base64_bytes(text@) == Ok::<_, Seq<char>>(v@),
            Err(e) => base64_bytes(text@) == Err::<Seq<u8>, _>(e@),
        },
        forall|b: Seq<u8>| #[trigger] base64_text(b) == text@ ==> r is Ok && r->Ok_0@ == b,
{
    match base64::engine::general_purpose::URL_SAFE_NO_PAD.decode(text) {
        Ok(v) => Ok(v),
        Err(e) => Err(e.to_string()),
    }
}

/// The token of a relevant set: its JSON, compressed, as a text behind the prefix.
pub open spec fn token_of(rs: ReadSetView) -> Seq<char> {
    let json = encode_utf8(set_text(rs));
    let packed = match deflated(json) {
        Some(b) => b,
        None => json,
    };
    TOKEN_PREFIX@ + base64_text(packed)
}

/// The opaque token that a read answers and a write names.
pub fn encode(set: &ReadSet) -> (r: String)
    ensures
        r@ == token_of(set.deep_view()),
{
    let text = json_of_set(set);
    let json = text.as_str().as_bytes();
    let packed = match deflate(json) {
        Some(b) => b,
        None => bytes_of(json),
    };
    cat2(TOKEN_PREFIX, to_base64(&packed).as_str())
}

fn bytes_of(b: &[u8]) -> (r: Vec<u8>)
    ensures
        r@ == b@,
{
    let mut out: Vec<u8> = Vec::new();
    let mut i: usize = 0;
    while i < b.len()
        invariant
            i <= b@.len(),
            out@ == b@.take(i as int),
        decreases b@.len() - i,
    {
        out.push(b[i]);
        assert(b@.take(i + 1) =~= b@.take(i as int).push(b@[i as int]));
        i += 1;
    }
    assert(b@.take(b@.len() as int) =~= b@);
    out
}

/// A JSON value.
pub enum JsonView {
    Null,
    Text(Seq<char>),
    /// A list, in order.
    Items(Seq<JsonView>),
    /// An object: its members, in the order of their names.
    Fields(Seq<(Seq<char>, JsonView)>),
    /// A number or a truth value.
    Other,
}

/// `serde_json::Value`: a JSON value, held as it was read.
#[verifier::external_type_specification]
#[verifier::external_body]
pub struct ExValue(serde_json::Value);

/// What a [`serde_json::Value`] holds.
pub uninterp spec fn json_of(v: serde_json::Value) -> JsonView;

/// A JSON value taken apart by one level.
pub enum Level {
    Null,
    Text(String),
    Items(Vec<Value>),
    Fields(Vec<(String, Value)>),
    Other,
}

impl Level {
    /// The value that was taken apart.
    pub open spec fn whole(self) -> JsonView {
        match self {
            Level::Null => JsonView::Null,
            Level::Text(s) => JsonView::Text(s@),
            Level::Items(vs) => JsonView::Items(
                Seq::new(vs@.len(), |i: int| json_of(vs@[i])),
            ),
            Level::Fields(fs) => JsonView::Fields(
                Seq::new(fs@.len(), |i: int| (fs@[i].0@, json_of(fs@[i].1))),
            ),
            Level::Other => JsonView::Other,
        }
    }
}

/// The variants of `serde_json::Value`, told apart: the parts of a list in order, those of
/// an object in the order of their names. Numbers and truth values are not looked into.
#[verifier::external_body]
fn taken_apart(v: &Value) -> (r: Level)
    ensures
        r.whole() == json_of(*v),
{
    match v {
        Value::Null => Level::Null,
        Value::String(s) => Level::Text(s.clone()),
        Value::Array(a) => Level::Items(a.clone()),
        Value::Object(o) => Level::Fields(BTreeMap::from_iter(o.clone()).into_iter().collect()),
        _ => Level::Other,
    }
}

/// A leaf of what a basis is made of: a text, a list of texts, or nothing.
#[derive(Debug, PartialEq)]
pub enum Field {
    Null,
    Text(String),
    /// A list, with nothing for what is no text in it.
    List(Vec<Option<String>>),
    /// Anything else.
    Other,
}

/// The model of a [`Field`].
pub enum FieldView {
    Null,
    Text(Seq<char>),
    List(Seq<Option<Seq<char>>>),
    Other,
}

impl DeepView for Field {
    type V = FieldView;

    open spec fn deep_view(&self) -> FieldView {
        match self {
            Field::Null => FieldView::Null,
            Field::Text(s) => FieldView::Text(s@),
            Field::List(v) => FieldView::List(v.deep_view()),
            Field::Other => FieldView::Other,
        }
    }
}

/// A part of what a basis is made of: leaves by name, or in a row.
#[derive(Debug, PartialEq)]
pub enum Part {
    Fields(Vec<(String, Field)>),
    Items(Vec<Field>),
    /// Anything else.
    Other,
}

/// The model of a [`Part`].
pub enum PartView {
    Fields(Seq<(Seq<char>, FieldView)>),
    Items(Seq<FieldView>),
    Other,
}

impl DeepView for Part {
    type V = PartView;

    open spec fn deep_view(&self) -> PartView {
        match self {
            Part::Fields(v) => PartView::Fields(v.deep_view()),
            Part::Items(v) => PartView::Items(v.deep_view()),
            Part::Other => PartView::Other,
        }
    }
}

/// What a basis is made of: parts by name, or in a row.
#[derive(Debug, PartialEq)]
pub enum Whole {
    Fields(Vec<(String, Part)>),
    Items(Vec<Part>),
    /// Anything else.
    Other,
}

/// The model of a [`Whole`].
pub enum WholeView {
    Fields(Seq<(Seq<char>, PartView)>),
    Items(Seq<PartView>),
    Other,
}

impl DeepView for Whole {
    type V = WholeView;

    open spec fn deep_view(&self) -> WholeView {
        match self {
            Whole::Fields(v) => WholeView::Fields(v.deep_view()),
            Whole::Items(v) => WholeView::Items(v.deep_view()),
            Whole::Other => WholeView::Other,
        }
    }
}

/// The text that a JSON value is, if it is one.
pub open spec fn text_from(j: JsonView) -> Option<Seq<char>> {
    match j {
        JsonView::Text(s) => Some(s),
        _ => None,
    }
}

/// A JSON value as a leaf.
pub open spec fn field_from(j: JsonView) -> FieldView {
    match j {
        JsonView::Null => FieldView::Null,
        JsonView::Text(s) => FieldView::Text(s),
        JsonView::Items(xs) => FieldView::List(Seq::new(xs.len(), |i: int| text_from(xs[i]))),
        _ => FieldView::Other,
    }
}

/// A JSON value as a part.
pub open spec fn part_from(j: JsonView) -> PartView {
    match j {
        JsonView::Fields(fs) => PartView::Fields(
            Seq::new(fs.len(), |i: int| (fs[i].0, field_from(fs[i].1))),
        ),
        JsonView::Items(xs) => PartView::Items(Seq::new(xs.len(), |i: int| field_from(xs[i]))),
        _ => PartView::Other,
    }
}

/// A JSON value as a whole.
pub open spec fn whole_from(j: JsonView) -> WholeView {
    match j {
        JsonView::Fields(fs) => WholeView::Fields(
            Seq::new(fs.len(), |i: int| (fs[i].0, part_from(fs[i].1))),
        ),
        JsonView::Items(xs) => WholeView::Items(Seq::new(xs.len(), |i: int| part_from(xs[i]))),
        _ => WholeView::Other,
    }
}

fn as_field(v: &Value) -> (r: Field)
    ensures
        r.deep_view() == field_from(json_of(*v)),
{
    match taken_apart(v) {
        Level::Null => Field::Null,
        Level::Text(s) => Field::Text(s),
        Level::Items(vs) => {
            let ghost want = Seq::new(vs@.len(), |i: int| text_from(json_of(vs@[i])));
            let mut out: Vec<Option<String>> = fresh();
            let mut i: usize = 0;
            assert(want.take(0) =~= Seq::<Option<Seq<char>>>::empty());
            while i < vs.len()
                invariant
                    i <= vs@.len(),
                    want == Seq::new(vs@.len(), |i: int| text_from(json_of(vs@[i]))),
                    out.deep_view() == want.take(i as int),
                decreases vs@.len() - i,
            {
                let x: Option<String> = match taken_apart(&vs[i]) {
                    Level::Text(s) => Some(s),
                    _ => None,
                };
                put(&mut out, x);
                assert(want.take(i + 1) =~= want.take(i as int).push(want[i as int]));
                i += 1;
            }
            assert(want.take(want.len() as int) =~= want);
            let r = Field::List(out);
            proof {
                let xs = Seq::new(vs@.len(), |i: int| json_of(vs@[i]));
                assert(want =~= Seq::new(xs.len(), |i: int| text_from(xs[i])));
            }
            r
        },
        _ => Field::Other,
    }
}

fn as_part(v: &Value) -> (r: Part)
    ensures
        r.deep_view() == part_from(json_of(*v)),
{
    match taken_apart(v) {
        Level::Fields(fs) => {
            let ghost want = Seq::new(
                fs@.len(),
                |i: int| (fs@[i].0@, field_from(json_of(fs@[i].1))),
            );
            let mut out: Vec<(String, Field)> = fresh();
            let mut i: usize = 0;
            assert(want.take(0) =~= Seq::<(Seq<char>, FieldView)>::empty());
            while i < fs.len()
                invariant
                    i <= fs@.len(),
                    want == Seq::new(
                        fs@.len(),
                        |i: int| (fs@[i].0@, field_from(json_of(fs@[i].1))),
                    ),
                    out.deep_view() == want.take(i as int),
                decreases fs@.len() - i,
            {
                let f = &fs[i];
                put(&mut out, (f.0.clone(), as_field(&f.1)));
                assert(want.take(i + 1) =~= want.take(i as int).push(want[i as int]));
                i += 1;
            }
            assert(want.take(want.len() as int) =~= want);
            proof {
                let xs = Seq::new(fs@.len(), |i: int| (fs@[i].0@, json_of(fs@[i].1)));
                assert(want =~= Seq::new(xs.len(), |i: int| (xs[i].0, field_from(xs[i].1))));
            }
            Part::Fields(out)
        },
        Level::Items(vs) => {
            let ghost want = Seq::new(vs@.len(), |i: int| field_from(json_of(vs@[i])));
            let mut out: Vec<Field> = fresh();
            let mut i: usize = 0;
            assert(want.take(0) =~= Seq::<FieldView>::empty());
            while i < vs.len()
                invariant
                    i <= vs@.len(),
                    want == Seq::new(vs@.len(), |i: int| field_from(json_of(vs@[i]))),
                    out.deep_view() == want.take(i as int),
                decreases vs@.len() - i,
            {
                put(&mut out, as_field(&vs[i]));
                assert(want.take(i + 1) =~= want.take(i as int).push(want[i as int]));
                i += 1;
            }
            assert(want.take(want.len() as int) =~= want);
            proof {
                let xs = Seq::new(vs@.len(), |i: int| json_of(vs@[i]));
                assert(want =~= Seq::new(xs.len(), |i: int| field_from(xs[i])));
            }
            Part::Items(out)
        },
        _ => Part::Other,
    }
}

fn as_whole(v: &Value) -> (r: Whole)
    ensures
        r.deep_view() == whole_from(json_of(*v)),
{
    match taken_apart(v) {
        Level::Fields(fs) => {
            let ghost want = Seq::new(
                fs@.len(),
                |i: int| (fs@[i].0@, part_from(json_of(fs@[i].1))),
            );
            let mut out: Vec<(String, Part)> = fresh();
            let mut i: usize = 0;
            assert(want.take(0) =~= Seq::<(Seq<char>, PartView)>::empty());
            while i < fs.len()
                invariant
                    i <= fs@.len(),
                    want == Seq::new(
                        fs@.len(),
                        |i: int| (fs@[i].0@, part_from(json_of(fs@[i].1))),
                    ),
                    out.deep_view() == want.take(i as int),
                decreases fs@.len() - i,
            {
                let f = &fs[i];
                put(&mut out, (f.0.clone(), as_part(&f.1)));
                assert(want.take(i + 1) =~= want.take(i as int).push(want[i as int]));
                i += 1;
            }
            assert(want.take(want.len() as int) =~= want);
            proof {
                let xs = Seq::new(fs@.len(), |i: int| (fs@[i].0@, json_of(fs@[i].1)));
                assert(want =~= Seq::new(xs.len(), |i: int| (xs[i].0, part_from(xs[i].1))));
            }
            Whole::Fields(out)
        },
        Level::Items(vs) => {
            let ghost want = Seq::new(vs@.len(), |i: int| part_from(json_of(vs@[i])));
            let mut out: Vec<Part> = fresh();
            let mut i: usize = 0;
            assert(want.take(0) =~= Seq::<PartView>::empty());
            while i < vs.len()
                invariant
                    i <= vs@.len(),
                    want == Seq::new(vs@.len(), |i: int| part_from(json_of(vs@[i]))),
                    out.deep_view() == want.take(i as int),
                decreases vs@.len() - i,
            {
                put(&mut out, as_part(&vs[i]));
                assert(want.take(i + 1) =~= want.take(i as int).push(want[i as int]));
                i += 1;
            }
            assert(want.take(want.len() as int) =~= want);
            proof {
                let xs = Seq::new(vs@.len(), |i: int| json_of(vs@[i]));
                assert(want =~= Seq::new(xs.len(), |i: int| part_from(xs[i])));
            }
            Whole::Items(out)
        },
        _ => Whole::Other,
    }
}

/// A list of texts as JSON has it.
pub open spec fn json_texts(xs: Seq<Seq<char>>) -> JsonView {
    JsonView::Items(Seq::new(xs.len(), |i: int| JsonView::Text(xs[i])))
}

/// A list among the members of an object: left out where it is empty.
pub open spec fn list_fields(name: Seq<char>, xs: Seq<Seq<char>>) -> Seq<(Seq<char>, JsonView)> {
    if xs.len() == 0 {
        Seq::empty()
    } else {
        seq![(name, json_texts(xs))]
    }
}

/// A scope as its JSON reads, in the order of the names.
pub open spec fn scope_json(s: ScopeView) -> Seq<(Seq<char>, JsonView)> {
    list_fields("g"@, s.groups) + list_fields("n"@, s.nodes) + list_fields("o"@, s.outline) + (
    match s.pending {
        Some(p) => seq![("p"@, JsonView::Text(p))],
        None => Seq::empty(),
    })
}

/// The entries as their JSON reads, in the order of their keys.
pub open spec fn entries_json(es: Map<Seq<char>, Seq<char>>, keys: Seq<Seq<char>>) -> Seq<
    (Seq<char>, JsonView),
> {
    Seq::new(keys.len(), |i: int| (keys[i], JsonView::Text(es[keys[i]])))
}

/// A relevant set as its JSON reads.
pub open spec fn set_json(rs: ReadSetView) -> JsonView {
    JsonView::Fields(
        seq![
            ("k"@, JsonView::Fields(entries_json(rs.entries, ascending(rs.entries.dom())))),
            ("s"@, JsonView::Fields(scope_json(rs.scope))),
        ],
    )
}

/// What a text is in JSON, or what is wrong with it.
pub uninterp spec fn json_read(bytes: Seq<u8>) -> Result<JsonView, Seq<char>>;

/// `serde_json::from_slice`, to a `serde_json::Value`: what the text is in JSON, or what is
/// wrong with it. What a relevant set is written as reads as the set; which other texts it
/// accepts, and what it says of them, is not stated. Of two members of an object with one
/// name the later counts.
#[verifier::external_body]
fn read_json(bytes: &Vec<u8>) -> (r: Result<Value, String>)
    ensures
        match r {
            Ok(v) => json_read(bytes@) == Ok::<_, Seq<char>>(json_of(v)),
            Err(e) => json_read(bytes@) == Err::<JsonView, _>(e@),
        },
        forall|rs: ReadSetView|
            rs.entries.dom().finite() && bytes@ == #[trigger] encode_utf8(set_text(rs)) ==> r is Ok
                && json_of(r->Ok_0) == set_json(rs),
{
    serde_json::from_slice(bytes).map_err(|e| e.to_string())
}

/// The first value with a name.
pub open spec fn named_value<V>(fs: Seq<(Seq<char>, V)>, name: Seq<char>) -> Option<V>
    decreases fs.len(),
{
    if fs.len() == 0 {
        None
    } else if fs[0].0 == name {
        Some(fs[0].1)
    } else {
        named_value(fs.drop_first(), name)
    }
}

/// The texts of a list, where it holds nothing else.
pub open spec fn all_texts(xs: Seq<Option<Seq<char>>>) -> Option<Seq<Seq<char>>> {
    if forall|i: int| 0 <= i < xs.len() ==> (#[trigger] xs[i]) is Some {
        Some(Seq::new(xs.len(), |i: int| xs[i]->0))
    } else {
        None
    }
}

/// A field that holds a list of texts: empty where it is missing.
pub open spec fn read_list(f: Option<FieldView>) -> Option<Seq<Seq<char>>> {
    match f {
        None => Some(Seq::empty()),
        Some(FieldView::List(xs)) => all_texts(xs),
        Some(_) => None,
    }
}

/// A field that holds a text or nothing: nothing where it is missing.
pub open spec fn read_opt(f: Option<FieldView>) -> Option<Option<Seq<char>>> {
    match f {
        None => Some(None),
        Some(FieldView::Null) => Some(None),
        Some(FieldView::Text(s)) => Some(Some(s)),
        Some(_) => None,
    }
}

/// A scope as its four fields tell it, or the name of the one that is no good.
pub open spec fn scope_from(
    n: Option<FieldView>,
    g: Option<FieldView>,
    o: Option<FieldView>,
    p: Option<FieldView>,
) -> Result<ScopeView, Seq<char>> {
    if read_list(n) is None {
        Err("n"@)
    } else if read_list(g) is None {
        Err("g"@)
    } else if read_list(o) is None {
        Err("o"@)
    } else if read_opt(p) is None {
        Err("p"@)
    } else {
        Ok(
            ScopeView {
                nodes: read_list(n)->0,
                groups: read_list(g)->0,
                outline: read_list(o)->0,
                pending: read_opt(p)->0,
            },
        )
    }
}

/// The value at a place of a row, if the row goes that far.
pub open spec fn item<V>(xs: Seq<V>, i: int) -> Option<V> {
    if i < xs.len() {
        Some(xs[i])
    } else {
        None
    }
}

/// A scope as a part tells it: its fields by name, or in a row of up to four.
pub open spec fn scope_in(s: PartView) -> Result<ScopeView, Seq<char>> {
    match s {
        PartView::Fields(fs) => scope_from(
            named_value(fs, "n"@),
            named_value(fs, "g"@),
            named_value(fs, "o"@),
            named_value(fs, "p"@),
        ),
        PartView::Items(xs) => if xs.len() <= 4 {
            scope_from(item(xs, 0), item(xs, 1), item(xs, 2), item(xs, 3))
        } else {
            Err("s"@)
        },
        PartView::Other => Err("s"@),
    }
}

/// The entries as their fields tell them, where each is a text.
pub open spec fn entries_from(fs: Seq<(Seq<char>, FieldView)>) -> Option<
    Map<Seq<char>, Seq<char>>,
>
    decreases fs.len(),
{
    if fs.len() == 0 {
        Some(Map::empty())
    } else {
        match (entries_from(fs.drop_last()), fs.last().1) {
            (Some(m), FieldView::Text(s)) => Some(m.insert(fs.last().0, s)),
            _ => None,
        }
    }
}

/// The entries as a part tells them.
pub open spec fn entries_in(k: PartView) -> Option<Map<Seq<char>, Seq<char>>> {
    match k {
        PartView::Fields(fs) => entries_from(fs),
        _ => None,
    }
}

/// A relevant set as its two parts tell it, or what is wrong with them.
pub open spec fn set_in(s: PartView, k: PartView) -> Result<ReadSetView, Seq<char>> {
    match (scope_in(s), entries_in(k)) {
        (Ok(scope), Some(entries)) => Ok(ReadSetView { scope, entries }),
        (Err(name), _) => Err("invalid field `"@ + name + "`"@),
        (Ok(_), None) => Err("invalid field `k`"@),
    }
}

/// A relevant set as a whole tells it: its parts by name, or the scope and the entries in
/// a row. Else what is wrong with it.
pub open spec fn set_from(w: WholeView) -> Result<ReadSetView, Seq<char>> {
    match w {
        WholeView::Fields(fs) => match (named_value(fs, "s"@), named_value(fs, "k"@)) {
            (Some(s), Some(k)) => set_in(s, k),
            (Some(_), None) => Err("missing field `k`"@),
            (None, _) => Err("missing field `s`"@),
        },
        WholeView::Items(ps) => if ps.len() == 2 {
            set_in(ps[0], ps[1])
        } else {
            Err("invalid length"@)
        },
        WholeView::Other => Err("invalid type"@),
    }
}

/// What is said of a basis that cannot be read.
pub open spec fn unreadable(why: Seq<char>) -> Seq<char> {
    "the basis is not readable ("@ + why + "); re-read the model"@
}

/// What is said of a token that is no basis.
pub open spec fn foreign_token() -> Seq<char> {
    "this is not a basis this engine minted (a basis starts \"b1.\"); re-read the model and use the `basis` that read answered"@
}

/// The relevant set that packed bytes stand for, or what is said of them.
pub open spec fn unpacked(packed: Seq<u8>) -> Result<ReadSetView, Seq<char>> {
    match inflated(packed) {
        Err(e) => Err(unreadable(e)),
        Ok(json) => match json_read(json) {
            Err(e) => Err(unreadable(e)),
            Ok(j) => match set_from(whole_from(j)) {
                Err(e) => Err(unreadable(e)),
                Ok(rs) => Ok(rs),
            },
        },
    }
}

/// The relevant set that a token stands for, or what is said of it.
pub open spec fn decoded(token: Seq<char>) -> Result<ReadSetView, Seq<char>> {
    if TOKEN_PREFIX@.is_prefix_of(token) {
        match base64_bytes(token.skip(TOKEN_PREFIX@.len() as int)) {
            Err(e) => Err(unreadable(e)),
            Ok(packed) => unpacked(packed),
        }
    } else {
        Err(foreign_token())
    }
}

/// A set as the exec code has it.
pub open spec fn result_view(r: Result<ReadSet, String>) -> Result<ReadSetView, Seq<char>> {
    match r {
        Ok(s) => Ok(s.deep_view()),
        Err(e) => Err(e@),
    }
}

fn find_part<'a>(fs: &'a Vec<(String, Part)>, name: &str) -> (r: Option<&'a Part>)
    ensures
        match r {
            Some(v) => named_value(fs.deep_view(), name@) == Some(v.deep_view()),
            None => named_value(fs.deep_view(), name@) is None,
        },
{
    let ghost v = fs.deep_view();
    let mut i: usize = 0;
    assert(v.skip(0) =~= v);
    while i < fs.len()
        invariant
            i <= fs@.len(),
            v == fs.deep_view(),
            named_value(v, name@) == named_value(v.skip(i as int), name@),
        decreases fs@.len() - i,
    {
        let f = at(fs, i);
        assert(v.skip(i as int)[0] == f.deep_view());
        assert(v.skip(i as int).drop_first() =~= v.skip(i + 1));
        if same_text(f.0.as_str(), name) {
            return Some(&f.1);
        }
        i += 1;
    }
    None
}

fn find_field<'a>(fs: &'a Vec<(String, Field)>, name: &str) -> (r: Option<&'a Field>)
    ensures
        match r {
            Some(v) => named_value(fs.deep_view(), name@) == Some(v.deep_view()),
            None => named_value(fs.deep_view(), name@) is None,
        },
{
    let ghost v = fs.deep_view();
    let mut i: usize = 0;
    assert(v.skip(0) =~= v);
    while i < fs.len()
        invariant
            i <= fs@.len(),
            v == fs.deep_view(),
            named_value(v, name@) == named_value(v.skip(i as int), name@),
        decreases fs@.len() - i,
    {
        let f = at(fs, i);
        assert(v.skip(i as int)[0] == f.deep_view());
        assert(v.skip(i as int).drop_first() =~= v.skip(i + 1));
        if same_text(f.0.as_str(), name) {
            return Some(&f.1);
        }
        i += 1;
    }
    None
}

fn list_in(f: Option<&Field>) -> (r: Option<Vec<String>>)
    ensures
        r.deep_view() == read_list(ref_view(f)),
{
    match f {
        None => Some(fresh()),
        Some(Field::List(xs)) => {
            let ghost xv = xs.deep_view();
            let mut out: Vec<String> = fresh();
            let ghost want = Seq::new(xv.len(), |i: int| xv[i]->0);
            let mut i: usize = 0;
            assert(want.take(0) =~= Seq::<Seq<char>>::empty());
            while i < xs.len()
                invariant
                    i <= xs@.len(),
                    xv == xs.deep_view(),
                    ref_view(f) == Some(FieldView::List(xv)),
                    want == Seq::new(xv.len(), |i: int| xv[i]->0),
                    forall|j: int| 0 <= j < i ==> (#[trigger] xv[j]) is Some,
                    out.deep_view() == want.take(i as int),
                decreases xs@.len() - i,
            {
                match at(xs, i) {
                    Some(s) => {
                        put(&mut out, s.clone());
                    },
                    None => {
                        assert(xv[i as int] is None);
                        return None;
                    },
                }
                assert(want.take(i + 1) =~= want.take(i as int).push(want[i as int]));
                i += 1;
            }
            assert(want.take(want.len() as int) =~= want);
            Some(out)
        },
        Some(_) => None,
    }
}

fn scope_of(
    n: Option<&Field>,
    g: Option<&Field>,
    o: Option<&Field>,
    p: Option<&Field>,
) -> (r: Result<Scope, &'static str>)
    ensures
        match r {
            Ok(s) => scope_from(ref_view(n), ref_view(g), ref_view(o), ref_view(p)) == Ok::<
                _,
                Seq<char>,
            >(s.deep_view()),
            Err(e) => scope_from(ref_view(n), ref_view(g), ref_view(o), ref_view(p)) == Err::<
                ScopeView,
                _,
            >(e@),
        },
{
    let nodes = match list_in(n) {
        Some(v) => v,
        None => {
            return Err("n");
        },
    };
    let groups = match list_in(g) {
        Some(v) => v,
        None => {
            return Err("g");
        },
    };
    let outline = match list_in(o) {
        Some(v) => v,
        None => {
            return Err("o");
        },
    };
    let pending: Option<String> = match p {
        None => None,
        Some(Field::Null) => None,
        Some(Field::Text(s)) => Some(s.clone()),
        Some(_) => {
            return Err("p");
        },
    };
    Ok(Scope { nodes, groups, outline, pending })
}

fn item_at(xs: &Vec<Field>, i: usize) -> (r: Option<&Field>)
    ensures
        ref_view(r) == item(xs.deep_view(), i as int),
{
    if i < xs.len() {
        Some(at(xs, i))
    } else {
        None
    }
}

fn scope_of_part(s: &Part) -> (r: Result<Scope, &'static str>)
    ensures
        match r {
            Ok(x) => scope_in(s.deep_view()) == Ok::<_, Seq<char>>(x.deep_view()),
            Err(e) => scope_in(s.deep_view()) == Err::<ScopeView, _>(e@),
        },
{
    match s {
        Part::Fields(fs) => scope_of(
            find_field(fs, "n"),
            find_field(fs, "g"),
            find_field(fs, "o"),
            find_field(fs, "p"),
        ),
        Part::Items(xs) => if xs.len() <= 4 {
            scope_of(item_at(xs, 0), item_at(xs, 1), item_at(xs, 2), item_at(xs, 3))
        } else {
            Err("s")
        },
        Part::Other => Err("s"),
    }
}

fn entries_of_fields(fs: &Vec<(String, Field)>) -> (r: Option<StrMap<String>>)
    ensures
        match r {
            Some(m) => entries_from(fs.deep_view()) == Some(m.deep_view()),
            None => entries_from(fs.deep_view()) is None,
        },
{
    let ghost v = fs.deep_view();
    let mut out: StrMap<String> = StrMap::new();
    let mut i: usize = 0;
    assert(v.take(0) =~= Seq::<(Seq<char>, FieldView)>::empty());
    while i < fs.len()
        invariant
            i <= fs@.len(),
            v == fs.deep_view(),
            entries_from(v.take(i as int)) == Some(out.deep_view()),
        decreases fs@.len() - i,
    {
        let f = at(fs, i);
        assert(v.take(i + 1).drop_last() =~= v.take(i as int));
        assert(v.take(i + 1).last() == f.deep_view());
        match &f.1 {
            Field::Text(s) => {
                out.insert(f.0.clone(), s.clone());
            },
            _ => {
                proof {
                    lemma_no_entries(v, i + 1);
                }
                return None;
            },
        }
        i += 1;
    }
    assert(v.take(v.len() as int) =~= v);
    Some(out)
}

proof fn lemma_no_entries(fs: Seq<(Seq<char>, FieldView)>, i: int)
    requires
        0 <= i <= fs.len(),
        entries_from(fs.take(i)) is None,
    ensures
        entries_from(fs) is None,
    decreases fs.len(),
{
    if i == fs.len() {
        assert(fs.take(i) =~= fs);
    } else {
        assert(fs.drop_last().take(i) =~= fs.take(i));
        lemma_no_entries(fs.drop_last(), i);
    }
}

fn set_of_parts(s: &Part, k: &Part) -> (r: Result<ReadSet, String>)
    ensures
        result_view(r) == set_in(s.deep_view(), k.deep_view()),
{
    match scope_of_part(s) {
        Err(name) => Err(cat3("invalid field `", name, "`")),
        Ok(scope) => {
            let entries = match k {
                Part::Fields(fs) => entries_of_fields(fs),
                _ => None,
            };
            match entries {
                None => Err("invalid field `k`".to_owned()),
                Some(entries) => Ok(ReadSet { scope, entries }),
            }
        },
    }
}

/// The relevant set that a JSON value tells, or what is wrong with it.
pub fn set_of(w: &Whole) -> (r: Result<ReadSet, String>)
    ensures
        result_view(r) == set_from(w.deep_view()),
{
    match w {
        Whole::Fields(fs) => match find_part(fs, "s") {
            None => Err("missing field `s`".to_owned()),
            Some(s) => match find_part(fs, "k") {
                None => Err("missing field `k`".to_owned()),
                Some(k) => set_of_parts(s, k),
            },
        },
        Whole::Items(ps) => if ps.len() == 2 {
            set_of_parts(at(ps, 0), at(ps, 1))
        } else {
            Err("invalid length".to_owned())
        },
        Whole::Other => Err("invalid type".to_owned()),
    }
}

fn not_readable(why: &str) -> (r: String)
    ensures
        r@ == unreadable(why@),
{
    cat3("the basis is not readable (", why, "); re-read the model")
}

proof fn lemma_prefix_len()
    ensures
        TOKEN_PREFIX@.len() == 3,
{
    reveal_strlit("b1.");
}

/// The leaves of an object.
spec fn leaves(fs: Seq<(Seq<char>, JsonView)>) -> Seq<(Seq<char>, FieldView)> {
    Seq::new(fs.len(), |i: int| (fs[i].0, field_from(fs[i].1)))
}

proof fn lemma_leaf(fs: Seq<(Seq<char>, JsonView)>, name: Seq<char>)
    ensures
        named_value(leaves(fs), name) == match named_value(fs, name) {
            Some(j) => Some(field_from(j)),
            None => None,
        },
    decreases fs.len(),
{
    if fs.len() > 0 {
        lemma_leaf(fs.drop_first(), name);
        assert(leaves(fs).drop_first() =~= leaves(fs.drop_first()));
    }
}

proof fn lemma_texts_read(xs: Seq<Seq<char>>)
    ensures
        read_list(Some(field_from(json_texts(xs)))) == Some(xs),
{
    let items = Seq::new(xs.len(), |i: int| JsonView::Text(xs[i]));
    let ts = Seq::new(items.len(), |i: int| text_from(items[i]));
    assert(field_from(json_texts(xs)) == FieldView::List(ts));
    assert forall|i: int| 0 <= i < ts.len() implies (#[trigger] ts[i]) is Some by {}
    assert(Seq::new(ts.len(), |i: int| ts[i]->0) =~= xs);
}

proof fn lemma_lookups_in(s: ScopeView)
    ensures
        scope_in(part_from(JsonView::Fields(scope_json(s)))) == Ok::<_, Seq<char>>(s),
{
    reveal_strlit("n");
    reveal_strlit("g");
    reveal_strlit("o");
    reveal_strlit("p");
    assert("n"@[0] == 'n' && "g"@[0] == 'g' && "o"@[0] == 'o' && "p"@[0] == 'p');
    let a = list_fields("g"@, s.groups);
    let b = list_fields("n"@, s.nodes);
    let c = list_fields("o"@, s.outline);
    let d: Seq<(Seq<char>, JsonView)> = match s.pending {
        Some(p) => seq![("p"@, JsonView::Text(p))],
        None => Seq::empty(),
    };
    let all = scope_json(s);
    assert(s.groups.len() == 0 ==> s.groups =~= Seq::<Seq<char>>::empty());
    assert(s.nodes.len() == 0 ==> s.nodes =~= Seq::<Seq<char>>::empty());
    assert(s.outline.len() == 0 ==> s.outline =~= Seq::<Seq<char>>::empty());
    lemma_skip_list("g"@, s.groups, b + c + d, "n"@);
    lemma_skip_list("g"@, s.groups, b + c + d, "o"@);
    lemma_skip_list("g"@, s.groups, b + c + d, "p"@);
    lemma_skip_list("n"@, s.nodes, c + d, "g"@);
    lemma_skip_list("n"@, s.nodes, c + d, "o"@);
    lemma_skip_list("n"@, s.nodes, c + d, "p"@);
    lemma_skip_list("o"@, s.outline, d, "g"@);
    lemma_skip_list("o"@, s.outline, d, "n"@);
    lemma_skip_list("o"@, s.outline, d, "p"@);
    assert(all =~= a + (b + c + d));
    assert(b + c + d =~= b + (c + d));
    let none = Seq::<(Seq<char>, JsonView)>::empty();
    assert(named_value(none, "g"@) is None);
    assert(named_value(none, "n"@) is None);
    assert(named_value(none, "o"@) is None);
    assert(named_value(none, "p"@) is None);
    assert("p"@ != "g"@ && "p"@ != "n"@ && "p"@ != "o"@);
    assert(d.len() == 1 ==> d.drop_first() =~= none && d[0].0 == "p"@);
    assert(d.len() == 0 ==> d =~= none);
    assert(named_value(d, "g"@) is None);
    assert(named_value(d, "n"@) is None);
    assert(named_value(d, "o"@) is None);
    lemma_leaf(all, "n"@);
    lemma_leaf(all, "g"@);
    lemma_leaf(all, "o"@);
    lemma_leaf(all, "p"@);
    lemma_texts_read(s.nodes);
    lemma_texts_read(s.groups);
    lemma_texts_read(s.outline);
    assert(part_from(JsonView::Fields(all)) == PartView::Fields(leaves(all)));
}

/// A list that leads is found by its own name, where it is not left out, and passed over
/// by any other.
proof fn lemma_skip_list(
    name: Seq<char>,
    xs: Seq<Seq<char>>,
    rest: Seq<(Seq<char>, JsonView)>,
    other: Seq<char>,
)
    ensures
        name != other ==> named_value(list_fields(name, xs) + rest, other) == named_value(
            rest,
            other,
        ),
        named_value(list_fields(name, xs) + rest, name) == if xs.len() == 0 {
            named_value(rest, name)
        } else {
            Some(json_texts(xs))
        },
{
    let a = list_fields(name, xs);
    if xs.len() == 0 {
        assert(a + rest =~= rest);
    } else {
        assert((a + rest)[0] == (name, json_texts(xs)));
        assert((a + rest).drop_first() =~= rest);
    }
}

proof fn lemma_entries_read(es: Map<Seq<char>, Seq<char>>, keys: Seq<Seq<char>>)
    requires
        keys.no_duplicates(),
        forall|i: int| 0 <= i < keys.len() ==> es.contains_key(#[trigger] keys[i]),
    ensures
        entries_from(leaves(entries_json(es, keys))) == Some(es.restrict(keys.to_set())),
    decreases keys.len(),
{
    let fs = leaves(entries_json(es, keys));
    if keys.len() == 0 {
        assert(es.restrict(keys.to_set()) =~= Map::<Seq<char>, Seq<char>>::empty());
    } else {
        let d = keys.drop_last();
        assert forall|i: int, j: int| 0 <= i < d.len() && 0 <= j < d.len() && i != j implies d[i]
            != d[j] by {
            assert(keys[i] != keys[j]);
        }
        assert forall|i: int| 0 <= i < d.len() implies es.contains_key(#[trigger] d[i]) by {
            assert(d[i] == keys[i]);
        }
        lemma_entries_read(es, d);
        assert(fs.drop_last() =~= leaves(entries_json(es, d)));
        let l = keys.last();
        assert(es.contains_key(keys[keys.len() - 1]));
        assert(es.restrict(keys.to_set()) =~= es.restrict(d.to_set()).insert(l, es[l])) by {
            assert forall|x: Seq<char>| keys.contains(x) == (d.contains(x) || x == l) by {
                if d.contains(x) {
                    let k = choose|k: int| 0 <= k < d.len() && d[k] == x;
                    assert(keys[k] == x);
                }
                assert(keys[keys.len() - 1] == l);
                if keys.contains(x) && x != l {
                    let k = choose|k: int| 0 <= k < keys.len() && keys[k] == x;
                    assert(d[k] == x);
                }
            }
        }
    }
}

/// What is written of a set reads as the set.
proof fn lemma_set_read(rs: ReadSetView)
    requires
        rs.entries.dom().finite(),
    ensures
        set_from(whole_from(set_json(rs))) == Ok::<_, Seq<char>>(rs),
{
    reveal_strlit("k");
    reveal_strlit("s");
    assert("k"@[0] == 'k' && "s"@[0] == 's');
    let ks = ascending(rs.entries.dom());
    crate::text::lemma_ascending_of(rs.entries.dom());
    let scope = JsonView::Fields(scope_json(rs.scope));
    let entries = JsonView::Fields(entries_json(rs.entries, ks));
    let js = seq![("k"@, entries), ("s"@, scope)];
    let fs = Seq::new(js.len(), |i: int| (js[i].0, part_from(js[i].1)));
    assert(whole_from(set_json(rs)) == WholeView::Fields(fs));
    assert(fs.drop_first()[0] == ("s"@, part_from(scope)));
    assert("k"@ != "s"@);
    assert(named_value(fs.drop_first(), "s"@) == Some(part_from(scope)));
    assert(named_value(fs, "s"@) == Some(part_from(scope)));
    assert(named_value(fs, "k"@) == Some(part_from(entries)));
    lemma_lookups_in(rs.scope);
    assert(part_from(entries) == PartView::Fields(leaves(entries_json(rs.entries, ks))));
    assert(ks.no_duplicates()) by {
        assert forall|i: int, j: int| 0 <= i < ks.len() && 0 <= j < ks.len() && i != j implies ks[i]
            != ks[j] by {
            crate::text::lemma_lex_irreflexive(ks[i]);
            if i < j {
                assert(crate::text::lex_lt(ks[i], ks[j]));
            } else {
                assert(crate::text::lex_lt(ks[j], ks[i]));
            }
        }
    }
    assert forall|i: int| 0 <= i < ks.len() implies rs.entries.contains_key(#[trigger] ks[i]) by {
        assert(ks.to_set().contains(ks[i]));
    }
    lemma_entries_read(rs.entries, ks);
    assert(rs.entries.restrict(ks.to_set()) =~= rs.entries);
}

/// Reads a token back. What is wrong with it is told in the caller's terms, and the
/// answer is the same either way: read again and repeat the write. A token that
/// [`encode`] made is read back as the set it was made of, as long as the set could be
/// compressed.
pub fn decode(token: &str) -> (r: Result<ReadSet, String>)
    ensures
        result_view(r) == decoded(token@),
        forall|rs: ReadSetView| #[trigger]
            token_of(rs) == token@ && rs.entries.dom().finite() && deflated(
                encode_utf8(set_text(rs)),
            ) is Some ==> result_view(r) == Ok::<_, Seq<char>>(rs),
{
    proof {
        lemma_prefix_len();
        reveal_strlit("b1.");
    }
    let body = match strip_prefix(token, TOKEN_PREFIX) {
        Some(b) => b,
        None => {
            proof {
                assert forall|rs: ReadSetView| #[trigger] token_of(rs) == token@ implies false by {
                    let t = token_of(rs);
                    assert(t.take(3) =~= TOKEN_PREFIX@);
                    assert(TOKEN_PREFIX@.is_prefix_of(t));
                }
            }
            return Err(
                "this is not a basis this engine minted (a basis starts \"b1.\"); re-read the model and use the `basis` that read answered".to_owned(),
            );
        },
    };
    proof {
        assert(token@.take(3) =~= TOKEN_PREFIX@);
        assert(TOKEN_PREFIX@.is_prefix_of(token@));
        assert(token@.skip(3) =~= body@);
        assert forall|rs: ReadSetView| #[trigger] token_of(rs) == token@ && deflated(
            encode_utf8(set_text(rs)),
        ) is Some implies base64_text(deflated(encode_utf8(set_text(rs)))->0) == body@ by {
            assert(token_of(rs).skip(3) =~= base64_text(
                deflated(encode_utf8(set_text(rs)))->0,
            ));
        }
    }
    let packed = match from_base64(body) {
        Ok(b) => b,
        Err(e) => {
            return Err(not_readable(e.as_str()));
        },
    };
    let json = match inflate(&packed) {
        Ok(j) => j,
        Err(e) => {
            return Err(not_readable(e.as_str()));
        },
    };
    let value = match read_json(&json) {
        Ok(v) => v,
        Err(e) => {
            return Err(not_readable(e.as_str()));
        },
    };
    proof {
        assert forall|rs: ReadSetView| #[trigger]
            token_of(rs) == token@ && rs.entries.dom().finite() && deflated(
                encode_utf8(set_text(rs)),
            ) is Some implies set_from(whole_from(json_of(value))) == Ok::<_, Seq<char>>(rs) by {
            assert(json@ == encode_utf8(set_text(rs)));
            lemma_set_read(rs);
        }
    }
    match set_of(&as_whole(&value)) {
        Ok(s) => Ok(s),
        Err(e) => Err(not_readable(e.as_str())),
    }
}

/// [`derive`] of a plan from which the entries under the `binned` element keys are set
/// aside.
pub fn derive_without(
    committed: &ScryModel,
    planned: &ScryModel,
    scope: &Scope,
    binned: &Vec<String>,
) -> (r: Option<String>)
    ensures
        r.deep_view() == if in_normal_form(scope.deep_view()) == empty_scope() {
            None
        } else {
            Some(
                token_of(
                    relevant_set_without(
                        committed.deep_view(),
                        planned.deep_view(),
                        scope.deep_view(),
                        binned.deep_view(),
                    ),
                ),
            )
        },
{
    if scope.normalized().is_empty() {
        return None;
    }
    Some(encode(&read_set_without(committed, planned, scope, binned)))
}

/// Derives the basis of a scope: what a read answers. A read that showed nothing that an
/// edit could be based on answers none, rather than one that would hold against anything.
pub fn derive(committed: &ScryModel, planned: &ScryModel, scope: &Scope) -> (r: Option<String>)
    ensures
        r.deep_view() == if in_normal_form(scope.deep_view()) == empty_scope() {
            None
        } else {
            Some(
                token_of(
                    relevant_set(
                        committed.deep_view(),
                        planned.deep_view(),
                        scope.deep_view(),
                    ),
                ),
            )
        },
{
    if scope.normalized().is_empty() {
        return None;
    }
    Some(encode(&read_set(committed, planned, scope)))
}

// ---- the check --------------------------------------------------------------------------

/// What a stale basis is refused with, before what moved.
pub open spec fn refusal_head() -> Seq<char> {
    "REFUSED: the `basis` this write names is stale — the relevant set moved since you read it, so writing now would overwrite somebody else's edit. Nothing was merged and nothing was written: the first committer wins and the second re-reads. Re-read the model, reconcile your edit with what changed, and repeat the write with the new `basis`. What changed since your basis:"@
}

/// A list of what moved, a line to each.
pub open spec fn moved_lines(ds: Seq<DifferenceView>) -> Seq<char>
    decreases ds.len(),
{
    if ds.len() == 0 {
        Seq::empty()
    } else {
        moved_lines(ds.drop_last()) + "\n- "@ + difference_line(ds.last())
    }
}

/// What a stale basis is refused with: the first twenty of what moved, and how many more.
pub open spec fn refusal_of(ds: Seq<DifferenceView>) -> Seq<char> {
    if ds.len() <= 20 {
        refusal_head() + moved_lines(ds)
    } else {
        refusal_head() + moved_lines(ds.take(20)) + "\n- … and "@ + decimal(
            (ds.len() - 20) as nat,
        ) + " more"@
    }
}

/// The verdict on a basis that was read, against the set as it stands: current, or refused
/// with what moved.
pub open spec fn verdict_against(
    c: ScryModelView,
    p: ScryModelView,
    basis: ReadSetView,
    is_now: ReadSetView,
) -> Result<ReadSetView, Seq<char>> {
    let ds = moved(c, p, basis, is_now);
    if ds.len() == 0 {
        Ok(basis)
    } else {
        Err(refusal_of(ds))
    }
}

/// The verdict on a basis that was read: current, or refused with what moved.
pub open spec fn verdict(c: ScryModelView, p: ScryModelView, basis: ReadSetView) -> Result<
    ReadSetView,
    Seq<char>,
> {
    verdict_against(c, p, basis, relevant_set(c, p, basis.scope))
}

/// The verdict on a token, for a plan from which entries are set aside.
pub open spec fn checked_without(
    c: ScryModelView,
    p: ScryModelView,
    token: Seq<char>,
    binned: Seq<Seq<char>>,
) -> Result<ReadSetView, Seq<char>> {
    match decoded(token) {
        Err(e) => Err("REFUSED: "@ + e + "."@),
        Ok(basis) => verdict_against(
            c,
            p,
            basis,
            relevant_set_without(c, p, basis.scope, binned),
        ),
    }
}

/// The verdict on a token.
pub open spec fn checked(c: ScryModelView, p: ScryModelView, token: Seq<char>) -> Result<
    ReadSetView,
    Seq<char>,
> {
    match decoded(token) {
        Err(e) => Err("REFUSED: "@ + e + "."@),
        Ok(basis) => verdict(c, p, basis),
    }
}

fn refuse(ds: &Vec<Difference>) -> (r: String)
    ensures
        r@ == refusal_of(ds.deep_view()),
{
    let ghost v = ds.deep_view();
    let n: usize = if ds.len() <= 20 {
        ds.len()
    } else {
        20
    };
    let mut msg =
        "REFUSED: the `basis` this write names is stale — the relevant set moved since you read it, so writing now would overwrite somebody else's edit. Nothing was merged and nothing was written: the first committer wins and the second re-reads. Re-read the model, reconcile your edit with what changed, and repeat the write with the new `basis`. What changed since your basis:".to_owned();
    let ghost head = msg@;
    let mut i: usize = 0;
    assert(v.take(0) =~= Seq::<DifferenceView>::empty());
    assert(head + moved_lines(v.take(0)) =~= head);
    while i < n
        invariant
            i <= n <= ds@.len(),
            v == ds.deep_view(),
            msg@ == head + moved_lines(v.take(i as int)),
        decreases n - i,
    {
        let d = at(ds, i);
        let ghost had = moved_lines(v.take(i as int));
        assert(v.take(i + 1).drop_last() =~= v.take(i as int));
        assert(v.take(i + 1).last() == d.deep_view());
        msg.append("\n- ");
        msg.append(d.line().as_str());
        assert(msg@ =~= head + moved_lines(v.take(i + 1)));
        i += 1;
    }
    if ds.len() > 20 {
        let more: usize = ds.len() - 20;
        msg.append("\n- … and ");
        msg.append(dec(more as u64).as_str());
        msg.append(" more");
    } else {
        assert(v.take(n as int) =~= v);
    }
    msg
}

/// [`check_set`] for a plan from which the entries under the `binned` element keys are set
/// aside.
pub fn check_set_without(
    committed: &ScryModel,
    planned: &ScryModel,
    basis: ReadSet,
    binned: &Vec<String>,
) -> (r: Result<ReadSet, String>)
    ensures
        result_view(r) == verdict_against(
            committed.deep_view(),
            planned.deep_view(),
            basis.deep_view(),
            relevant_set_without(
                committed.deep_view(),
                planned.deep_view(),
                basis.deep_view().scope,
                binned.deep_view(),
            ),
        ),
{
    let now = read_set_without(committed, planned, &basis.scope, binned);
    let ds = differences(committed, planned, &basis, &now);
    if ds.len() == 0 {
        Ok(basis)
    } else {
        Err(refuse(&ds))
    }
}

/// The verdict on a basis that was read back: nothing moved, or the refusal that names
/// what did.
pub fn check_set(committed: &ScryModel, planned: &ScryModel, basis: ReadSet) -> (r: Result<
    ReadSet,
    String,
>)
    ensures
        result_view(r) == verdict(
            committed.deep_view(),
            planned.deep_view(),
            basis.deep_view(),
        ),
{
    proof {
        law_nothing_set_aside(
            committed.deep_view(),
            planned.deep_view(),
            basis.deep_view().scope,
        );
    }
    check_set_without(committed, planned, basis, &fresh())
}

/// [`check`] for a plan from which the entries under the `binned` element keys are set
/// aside.
pub fn check_without(
    committed: &ScryModel,
    planned: &ScryModel,
    token: &str,
    binned: &Vec<String>,
) -> (r: Result<ReadSet, String>)
    ensures
        result_view(r) == checked_without(
            committed.deep_view(),
            planned.deep_view(),
            token@,
            binned.deep_view(),
        ),
        forall|rs: ReadSetView| #[trigger]
            token_of(rs) == token@ && rs.entries.dom().finite() && deflated(
                encode_utf8(set_text(rs)),
            ) is Some ==> result_view(r) == verdict_against(
                committed.deep_view(),
                planned.deep_view(),
                rs,
                relevant_set_without(
                    committed.deep_view(),
                    planned.deep_view(),
                    rs.scope,
                    binned.deep_view(),
                ),
            ),
{
    match decode(token) {
        Err(e) => Err(cat3("REFUSED: ", e.as_str(), ".")),
        Ok(basis) => check_set_without(committed, planned, basis, binned),
    }
}

/// Checks the basis that a write names against the model as it stands. The basis as it
/// was read back, so that the caller can derive it anew over the same scope; or the
/// refusal, which names what moved.
pub fn check(committed: &ScryModel, planned: &ScryModel, token: &str) -> (r: Result<
    ReadSet,
    String,
>)
    ensures
        result_view(r) == checked(committed.deep_view(), planned.deep_view(), token@),
        forall|rs: ReadSetView| #[trigger]
            token_of(rs) == token@ && rs.entries.dom().finite() && deflated(
                encode_utf8(set_text(rs)),
            ) is Some ==> result_view(r) == verdict(
                committed.deep_view(),
                planned.deep_view(),
                rs,
            ),
        forall|s: ScopeView|
            #![trigger token_of(relevant_set(committed.deep_view(), planned.deep_view(), s))]
            token_of(relevant_set(committed.deep_view(), planned.deep_view(), s)) == token@
                && deflated(
                encode_utf8(
                    set_text(relevant_set(committed.deep_view(), planned.deep_view(), s)),
                ),
            ) is Some ==> result_view(r) == Ok::<_, Seq<char>>(
                relevant_set(committed.deep_view(), planned.deep_view(), s),
            ),
        r is Ok <==> decoded(token@) is Ok && relevant_set(
            committed.deep_view(),
            planned.deep_view(),
            decoded(token@)->Ok_0.scope,
        ).entries == decoded(token@)->Ok_0.entries,
        r is Ok ==> r->Ok_0.deep_view() == decoded(token@)->Ok_0,
        !TOKEN_PREFIX@.is_prefix_of(token@) ==> r is Err && r->Err_0@ == "REFUSED: "@
            + foreign_token() + "."@,
{
    let ghost c = committed.deep_view();
    let ghost p = planned.deep_view();
    proof {
        assert forall|s: ScopeView| #[trigger] relevant_set(c, p, s).entries.dom().finite() && verdict(
            c,
            p,
            relevant_set(c, p, s),
        ) == Ok::<_, Seq<char>>(relevant_set(c, p, s)) by {
            lemma_relevant_finite(c, p, in_normal_form(s));
            law_a_basis_holds_until_its_set_moves(c, p, s, c, p);
        }
    }
    match decode(token) {
        Err(e) => Err(cat3("REFUSED: ", e.as_str(), ".")),
        Ok(basis) => {
            let _n: usize = basis.entries.len();
            proof {
                let was = basis.deep_view();
                assert(relevant_set(c, p, was.scope).entries.dom().finite());
                law_moved_means_differs(c, p, was, relevant_set(c, p, was.scope));
            }
            check_set(committed, planned, basis)
        },
    }
}

// ---- laws -------------------------------------------------------------------------------

proof fn lemma_normal_ids(ids: Seq<Seq<char>>)
    ensures
        ascending(ids.to_set()).to_set() == ids.to_set(),
{
    vstd::seq_lib::seq_to_set_is_finite(ids);
    crate::text::lemma_ascending_of(ids.to_set());
}

/// A scope in normal form is its own normal form.
pub proof fn law_normal_form_is_stable(s: ScopeView)
    ensures
        in_normal_form(in_normal_form(s)) == in_normal_form(s),
{
    lemma_normal_ids(s.nodes);
    lemma_normal_ids(s.groups);
    vstd::seq_lib::seq_to_set_is_finite(s.outline);
    let d = s.outline.to_set().difference(s.nodes.to_set());
    assert(d.finite());
    crate::text::lemma_ascending_of(d);
    assert(d.difference(s.nodes.to_set()) =~= d);
}

/// Two reads that showed the same derive the same basis, in whatever order and however
/// often their ids came.
pub proof fn law_order_does_not_matter(
    c: ScryModelView,
    p: ScryModelView,
    s: ScopeView,
    t: ScopeView,
)
    requires
        s.nodes.to_set() == t.nodes.to_set(),
        s.groups.to_set() == t.groups.to_set(),
        s.outline.to_set() == t.outline.to_set(),
        s.pending == t.pending,
    ensures
        relevant_set(c, p, s) == relevant_set(c, p, t),
{
}

proof fn lemma_none_moved(
    c: ScryModelView,
    p: ScryModelView,
    was: Map<Seq<char>, Seq<char>>,
    is_now: Map<Seq<char>, Seq<char>>,
    keys: Seq<Seq<char>>,
)
    ensures
        moved_among(c, p, was, is_now, keys).len() == 0 <==> forall|i: int|
            0 <= i < keys.len() ==> how_moved(was, is_now, #[trigger] keys[i]) is None,
    decreases keys.len(),
{
    if keys.len() > 0 {
        let d = keys.drop_last();
        lemma_none_moved(c, p, was, is_now, d);
        if moved_among(c, p, was, is_now, keys).len() == 0 {
            assert forall|i: int| 0 <= i < keys.len() implies how_moved(
                was,
                is_now,
                #[trigger] keys[i],
            ) is None by {
                if i < d.len() {
                    assert(how_moved(was, is_now, d[i]) is None);
                }
            }
        } else if forall|i: int|
            0 <= i < keys.len() ==> how_moved(was, is_now, #[trigger] keys[i]) is None {
            assert(how_moved(was, is_now, keys[keys.len() - 1]) is None);
            assert forall|i: int| 0 <= i < d.len() implies how_moved(
                was,
                is_now,
                #[trigger] d[i],
            ) is None by {
                assert(how_moved(was, is_now, keys[i]) is None);
            }
        }
    }
}

/// A token that is none of the library's tells the caller to read again.
pub proof fn law_a_foreign_token_asks_to_re_read(c: ScryModelView, p: ScryModelView, token: Seq<char>)
    requires
        !TOKEN_PREFIX@.is_prefix_of(token),
    ensures
        checked(c, p, token) is Err,
        exists|i: int| #[trigger] reads_at(checked(c, p, token)->Err_0, i, "re-read"@),
{
    reveal_strlit("REFUSED: ");
    reveal_strlit(
        "this is not a basis this engine minted (a basis starts \"b1.\"); re-read the model and use the `basis` that read answered",
    );
    reveal_strlit("re-read");
    let t = checked(c, p, token)->Err_0;
    let i: int = 72;
    assert(t.subrange(i, i + 7) =~= "re-read"@);
    assert(reads_at(t, i, "re-read"@));
}

/// Something moved exactly where the two sets differ in an element: nothing that moved
/// goes unnamed, and nothing that did not is named.
pub proof fn law_moved_means_differs(
    c: ScryModelView,
    p: ScryModelView,
    was: ReadSetView,
    is_now: ReadSetView,
)
    requires
        was.entries.dom().finite(),
        is_now.entries.dom().finite(),
    ensures
        moved(c, p, was, is_now).len() == 0 <==> was.entries == is_now.entries,
{
    let a = was.entries;
    let b = is_now.entries;
    let all = a.dom().union(b.dom());
    let ks = ascending(all);
    crate::text::lemma_ascending_of(all);
    lemma_none_moved(c, p, a, b, ks);
    if moved(c, p, was, is_now).len() == 0 {
        assert forall|k: Seq<char>| #[trigger] a.dom().contains(k) == b.dom().contains(k) && (
        a.dom().contains(k) ==> a[k] == b[k]) by {
            if all.contains(k) {
                assert(ks.to_set().contains(k));
                let i = choose|i: int| 0 <= i < ks.len() && ks[i] == k;
                assert(how_moved(a, b, ks[i]) is None);
            }
        }
        assert(a.dom() =~= b.dom());
        assert forall|k: Seq<char>| #[trigger] a.dom().contains(k) implies a[k] == b[k] by {
            assert(a.dom().contains(k) == b.dom().contains(k));
        }
        assert(a =~= b);
    }
    if a == b {
        assert forall|i: int| 0 <= i < ks.len() implies how_moved(a, b, #[trigger] ks[i]) is None by {
        }
    }
}

proof fn lemma_claims_finite(
    layer: Seq<char>,
    host: Seq<char>,
    rs: Seq<ResponsibilityView>,
    es: Map<Seq<char>, Seq<char>>,
)
    requires
        es.dom().finite(),
    ensures
        with_claims(layer, host, rs, es).dom().finite(),
    decreases rs.len(),
{
    if rs.len() > 0 {
        lemma_claims_finite(layer, host, rs.drop_last(), es);
    }
}

proof fn lemma_nodes_finite(
    c: ScryModelView,
    p: ScryModelView,
    ids: Seq<Seq<char>>,
    es: Map<Seq<char>, Seq<char>>,
)
    requires
        es.dom().finite(),
    ensures
        with_nodes(c, p, ids, es).dom().finite(),
    decreases ids.len(),
{
    if ids.len() > 0 {
        let id = ids.last();
        let before = with_nodes(c, p, ids.drop_last(), es);
        lemma_nodes_finite(c, p, ids.drop_last(), es);
        let e1 = before.insert("d:"@ + id, directive_print(c, p, id));
        assert(e1.dom().finite());
        let nc = first::<Node>(c.nodes, id);
        if nc is Some {
            lemma_claims_finite("c"@, nc->0.id, nc->0.responsibilities, e1);
        }
        let e2 = with_node_claims("c"@, c, id, e1);
        assert(e2.dom().finite());
        let np = first::<Node>(p.nodes, id);
        if np is Some {
            lemma_claims_finite("p"@, np->0.id, np->0.responsibilities, e2);
        }
        assert(with_node_claims("p"@, p, id, e2).dom().finite());
    }
}

proof fn lemma_groups_finite(
    c: ScryModelView,
    p: ScryModelView,
    ids: Seq<Seq<char>>,
    es: Map<Seq<char>, Seq<char>>,
)
    requires
        es.dom().finite(),
    ensures
        with_groups(c, p, ids, es).dom().finite(),
    decreases ids.len(),
{
    if ids.len() > 0 {
        let id = ids.last();
        lemma_groups_finite(c, p, ids.drop_last(), es);
        let before = with_groups(c, p, ids.drop_last(), es);
        let gc = first::<Group>(c.groups, id);
        if gc is Some {
            lemma_claims_finite("c"@, gc->0.id, gc->0.responsibilities, before);
        }
        let e2 = with_group_claims("c"@, c, id, before);
        assert(e2.dom().finite());
        let gp = first::<Group>(p.groups, id);
        if gp is Some {
            lemma_claims_finite("p"@, gp->0.id, gp->0.responsibilities, e2);
        }
    }
}

proof fn lemma_outlines_finite(
    p: ScryModelView,
    ids: Seq<Seq<char>>,
    es: Map<Seq<char>, Seq<char>>,
)
    requires
        es.dom().finite(),
    ensures
        with_outlines(p, ids, es).dom().finite(),
    decreases ids.len(),
{
    if ids.len() > 0 {
        lemma_outlines_finite(p, ids.drop_last(), es);
    }
}

proof fn lemma_pending_finite(
    p: ScryModelView,
    s: ScopeView,
    chs: Seq<ElementChangeView>,
    es: Map<Seq<char>, Seq<char>>,
)
    requires
        es.dom().finite(),
    ensures
        with_pending(p, s, chs, es).dom().finite(),
    decreases chs.len(),
{
    if chs.len() > 0 {
        lemma_pending_finite(p, s, chs.drop_last(), es);
    }
}

proof fn lemma_relevant_finite(c: ScryModelView, p: ScryModelView, s: ScopeView)
    ensures
        relevant_entries(c, p, s).dom().finite(),
{
    lemma_nodes_finite(c, p, s.nodes, Map::empty());
    let e1 = with_nodes(c, p, s.nodes, Map::empty());
    lemma_groups_finite(c, p, s.groups, e1);
    let e2 = with_groups(c, p, s.groups, e1);
    lemma_outlines_finite(p, s.outline, e2);
    lemma_pending_finite(p, s, not_vagrant(p, diff_of(c, p)), with_outlines(p, s.outline, e2));
}

/// A basis holds as long as nothing in its relevant set moved, and is refused as soon as
/// anything did, whichever element the write itself is about: the read set of the models
/// it was read from against that of the models as they stand.
pub proof fn law_a_basis_holds_until_its_set_moves(
    c0: ScryModelView,
    p0: ScryModelView,
    s: ScopeView,
    c: ScryModelView,
    p: ScryModelView,
)
    ensures
        verdict(c, p, relevant_set(c0, p0, s)) is Ok <==> relevant_set(c0, p0, s)
            == relevant_set(c, p, s),
        verdict(c, p, relevant_set(c, p, s)) is Ok,
{
    law_normal_form_is_stable(s);
    let n = in_normal_form(s);
    lemma_relevant_finite(c0, p0, n);
    lemma_relevant_finite(c, p, n);
    law_moved_means_differs(c, p, relevant_set(c0, p0, s), relevant_set(c, p, s));
    law_moved_means_differs(c, p, relevant_set(c, p, s), relevant_set(c, p, s));
}

/// A basis of a plan from which entries are set aside holds in the same way: as long as
/// nothing in its relevant set moved.
pub proof fn law_a_basis_holds_beside_what_is_set_aside(
    c0: ScryModelView,
    p0: ScryModelView,
    s: ScopeView,
    c: ScryModelView,
    p: ScryModelView,
    binned: Seq<Seq<char>>,
)
    ensures
        ({
            let was = relevant_set_without(c0, p0, s, binned);
            verdict_against(c, p, was, relevant_set_without(c, p, was.scope, binned)) is Ok <==> was
                == relevant_set_without(c, p, s, binned)
        }),
{
    law_normal_form_is_stable(s);
    lemma_relevant_without_finite(c0, p0, s, binned);
    lemma_relevant_without_finite(c, p, s, binned);
    law_moved_means_differs(
        c,
        p,
        relevant_set_without(c0, p0, s, binned),
        relevant_set_without(c, p, s, binned),
    );
}

proof fn lemma_relevant_without_finite(
    c: ScryModelView,
    p: ScryModelView,
    s: ScopeView,
    binned: Seq<Seq<char>>,
)
    ensures
        relevant_set_without(c, p, s, binned).entries.dom().finite(),
{
    let n = in_normal_form(s);
    lemma_nodes_finite(c, p, n.nodes, Map::empty());
    let e1 = with_nodes(c, p, n.nodes, Map::empty());
    lemma_groups_finite(c, p, n.groups, e1);
    let e2 = with_groups(c, p, n.groups, e1);
    lemma_outlines_finite(p, n.outline, e2);
    lemma_pending_finite(
        p,
        n,
        not_vagrant(p, not_binned(diff_of(c, p), binned)),
        with_outlines(p, n.outline, e2),
    );
}

/// Tests and anchors are not in the relevant set: they can land without a write being
/// refused.
pub proof fn law_tests_and_anchors_are_not_relevant(
    c: ScryModelView,
    p: ScryModelView,
    s: ScopeView,
    c2: ScryModelView,
    p2: ScryModelView,
)
    requires
        c2 == (ScryModelView {
            source_map: c2.source_map,
            test_map: c2.test_map,
            boundaries: c2.boundaries,
            ..c
        }),
        p2 == (ScryModelView {
            source_map: p2.source_map,
            test_map: p2.test_map,
            boundaries: p2.boundaries,
            ..p
        }),
    ensures
        relevant_set(c2, p2, s) == relevant_set(c, p, s),
{
    let n = in_normal_form(s);
    lemma_same_nodes(c, p, c2, p2, n.nodes, Map::empty());
    let e1 = with_nodes(c, p, n.nodes, Map::empty());
    lemma_same_groups(c, p, c2, p2, n.groups, e1);
    let e2 = with_groups(c, p, n.groups, e1);
    lemma_same_outlines(p, p2, n.outline, e2);
    assert(diff_of(c2, p2) == diff_of(c, p));
    lemma_same_queue(p, p2, diff_of(c, p));
    lemma_same_pending(
        p,
        p2,
        n,
        not_vagrant(p, diff_of(c, p)),
        with_outlines(p, n.outline, e2),
    );
}

proof fn lemma_same_nodes(
    c: ScryModelView,
    p: ScryModelView,
    c2: ScryModelView,
    p2: ScryModelView,
    ids: Seq<Seq<char>>,
    es: Map<Seq<char>, Seq<char>>,
)
    requires
        c2.nodes == c.nodes,
        p2.nodes == p.nodes,
    ensures
        with_nodes(c2, p2, ids, es) == with_nodes(c, p, ids, es),
    decreases ids.len(),
{
    if ids.len() > 0 {
        lemma_same_nodes(c, p, c2, p2, ids.drop_last(), es);
    }
}

proof fn lemma_same_groups(
    c: ScryModelView,
    p: ScryModelView,
    c2: ScryModelView,
    p2: ScryModelView,
    ids: Seq<Seq<char>>,
    es: Map<Seq<char>, Seq<char>>,
)
    requires
        c2.groups == c.groups,
        p2.groups == p.groups,
    ensures
        with_groups(c2, p2, ids, es) == with_groups(c, p, ids, es),
    decreases ids.len(),
{
    if ids.len() > 0 {
        lemma_same_groups(c, p, c2, p2, ids.drop_last(), es);
    }
}

proof fn lemma_same_outlines(
    p: ScryModelView,
    p2: ScryModelView,
    ids: Seq<Seq<char>>,
    es: Map<Seq<char>, Seq<char>>,
)
    requires
        p2.nodes == p.nodes,
    ensures
        with_outlines(p2, ids, es) == with_outlines(p, ids, es),
    decreases ids.len(),
{
    if ids.len() > 0 {
        lemma_same_outlines(p, p2, ids.drop_last(), es);
    }
}

proof fn lemma_same_queue(p: ScryModelView, p2: ScryModelView, chs: Seq<ElementChangeView>)
    requires
        p2.nodes == p.nodes,
        p2.groups == p.groups,
    ensures
        not_vagrant(p2, chs) == not_vagrant(p, chs),
    decreases chs.len(),
{
    if chs.len() > 0 {
        lemma_same_queue(p, p2, chs.drop_last());
    }
}

proof fn lemma_same_pending(
    p: ScryModelView,
    p2: ScryModelView,
    s: ScopeView,
    chs: Seq<ElementChangeView>,
    es: Map<Seq<char>, Seq<char>>,
)
    requires
        p2.change_map == p.change_map,
    ensures
        with_pending(p2, s, chs, es) == with_pending(p, s, chs, es),
    decreases chs.len(),
{
    if chs.len() > 0 {
        lemma_same_pending(p, p2, s, chs.drop_last(), es);
    }
}

} // verus!
