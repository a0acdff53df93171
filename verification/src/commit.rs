//! Folding: planned elements entering the committed model once their code exists.
//!
//! A fold moves an element with its anchors, tests and boundary: each has one
//! home, and the plan stops carrying what committed now owns. Committed never
//! carries a mark that awaits a verdict.

use crate::changes::{element_key, key, ChangeMeta, ChangeMetaView};
use crate::diff::{
    diff_of, law_nothing_binned, minus, not_binned, open_plan_without, ref_view, without,
    ElementChange, ElementChangeView, ElementKind,
};
use crate::drift::{subtree, subtree_ids};
use crate::ids::{add_names, names};
use crate::ledger::{
    cleaned, closed_by_cleaning, deletes, foreign, foreign_to_host, gc, is_deletion,
};
use crate::model::{
    claim_of, find_responsibility, groups_without_claim, has_node, lemma_unseen_shrinks,
    nodes_without_claim, strip_groups, strip_nodes, unseen, Group, GroupView, Link, LinkView, Node,
    NodeView, Responsibility, ResponsibilityView, SchemaProperty, SchemaPropertyView, ScryModel,
    ScryModelView,
};
use crate::modelled::{at, fresh, is_on, put, set_at, Modelled};
use crate::named::{except, find, first, has_named, lemma_place_of, others, pick, place_of, there};
use crate::strmap::StrMap;
use crate::text::{cat3, holds, same_text};
use vstd::prelude::*;
use vstd::string::*;

verus! {

/// What a fold did besides changing the two layers.
#[derive(Debug, PartialEq)]
pub struct Folded {
    /// The changes that lost their last entry by it.
    pub closed: Vec<ChangeMeta>,
    /// Must the plan be written back?
    pub rewrites_plan: bool,
}

/// The model of a [`Folded`].
#[verifier::ext_equal]
pub struct FoldedView {
    pub closed: Seq<ChangeMetaView>,
    pub rewrites_plan: bool,
}

impl DeepView for Folded {
    type V = FoldedView;

    open spec fn deep_view(&self) -> FoldedView {
        FoldedView {
            closed: self.closed.deep_view(),
            rewrites_plan: self.rewrites_plan.deep_view(),
        }
    }
}

impl Modelled for Folded {
    fn dup(&self) -> (r: Self) {
        Folded {
            closed: self.closed.dup(),
            rewrites_plan: self.rewrites_plan.dup(),
        }
    }

    fn same(&self, other: &Self) -> (r: bool) {
        self.closed.same(&other.closed)
            && self.rewrites_plan.same(&other.rewrites_plan)
    }
}

impl Clone for Folded {
    fn clone(&self) -> (r: Self)
        ensures
            r.deep_view() == self.deep_view(),
    {
        self.dup()
    }
}

/// What a sweep of folds did besides changing the two layers.
#[derive(Debug, PartialEq)]
pub struct Swept {
    /// The changes that lost their last entry by it.
    pub closed: Vec<ChangeMeta>,
    /// Must the plan be written back?
    pub rewrites_plan: bool,
    /// Why the sweep stopped before its end, if it did.
    pub failed: Option<String>,
}

/// The model of a [`Swept`].
#[verifier::ext_equal]
pub struct SweptView {
    pub closed: Seq<ChangeMetaView>,
    pub rewrites_plan: bool,
    pub failed: Option<Seq<char>>,
}

impl DeepView for Swept {
    type V = SweptView;

    open spec fn deep_view(&self) -> SweptView {
        SweptView {
            closed: self.closed.deep_view(),
            rewrites_plan: self.rewrites_plan.deep_view(),
            failed: self.failed.deep_view(),
        }
    }
}

impl Modelled for Swept {
    fn dup(&self) -> (r: Self) {
        Swept {
            closed: self.closed.dup(),
            rewrites_plan: self.rewrites_plan.dup(),
            failed: self.failed.dup(),
        }
    }

    fn same(&self, other: &Self) -> (r: bool) {
        self.closed.same(&other.closed)
            && self.rewrites_plan.same(&other.rewrites_plan)
            && self.failed.same(&other.failed)
    }
}

impl Clone for Swept {
    fn clone(&self) -> (r: Self)
        ensures
            r.deep_view() == self.deep_view(),
    {
        self.dup()
    }
}
// ---- what folds -----------------------------------------------------------------

/// A claim without the marks that await a verdict. Where a vagrant came from goes with
/// the mark.
pub open spec fn clean(r: ResponsibilityView) -> ResponsibilityView {
    ResponsibilityView {
        vagrant: None,
        vagrant_origin: if r.vagrant == Some(true) {
            None
        } else {
            r.vagrant_origin
        },
        stale: None,
        stale_proposal: None,
        ..r
    }
}

fn clean_committed_resp(r: Responsibility) -> (c: Responsibility)
    ensures
        c.deep_view() == clean(r.deep_view()),
{
    let mut c = r;
    if is_on(&c.vagrant) {
        c.vagrant_origin = None;
    }
    c.vagrant = None;
    c.stale = None;
    c.stale_proposal = None;
    c
}

/// How a host is folded: its key, the plan's tags, and the claims to hold back.
pub struct Gate {
    pub host: Seq<char>,
    pub map: Map<Seq<char>, Seq<char>>,
    pub withhold: Seq<Seq<char>>,
}

impl Gate {
    /// Does the claim fold with its host? Not while it awaits a verdict, is held
    /// back, or is another change's work.
    pub open spec fn passes(self, r: ResponsibilityView) -> bool {
        r.vagrant != Some(true) && !self.withhold.contains(r.id) && !foreign(
            self.map,
            self.host,
            key(ElementKind::Responsibility, None, r.id),
        )
    }

    /// Does the property of `owner` fold with it?
    pub open spec fn passes_prop(self, owner: Seq<char>, p: SchemaPropertyView) -> bool {
        p.vagrant != Some(true) && !foreign(
            self.map,
            self.host,
            key(ElementKind::Property, Some(owner), p.label),
        )
    }

    /// The claims that fold, cleaned, in order.
    pub open spec fn folding(self, rs: Seq<ResponsibilityView>) -> Seq<ResponsibilityView>
        decreases rs.len(),
    {
        if rs.len() == 0 {
            Seq::empty()
        } else if self.passes(rs.last()) {
            self.folding(rs.drop_last()).push(clean(rs.last()))
        } else {
            self.folding(rs.drop_last())
        }
    }

    /// Does the plan hold a version of the claim that stays behind?
    pub open spec fn stays_behind(self, rs: Seq<ResponsibilityView>, id: Seq<char>) -> bool {
        exists|i: int| 0 <= i < rs.len() && (#[trigger] rs[i]).id == id && !self.passes(rs[i])
    }

    /// The committed claims whose planned version stays behind, in order.
    pub open spec fn kept(
        self,
        prior: Seq<ResponsibilityView>,
        rs: Seq<ResponsibilityView>,
    ) -> Seq<ResponsibilityView>
        decreases prior.len(),
    {
        if prior.len() == 0 {
            Seq::empty()
        } else if self.stays_behind(rs, prior.last().id) {
            self.kept(prior.drop_last(), rs).push(prior.last())
        } else {
            self.kept(prior.drop_last(), rs)
        }
    }

    /// The properties that fold, without the drift mark, in order.
    pub open spec fn folding_props(
        self,
        owner: Seq<char>,
        ps: Seq<SchemaPropertyView>,
    ) -> Seq<SchemaPropertyView>
        decreases ps.len(),
    {
        if ps.len() == 0 {
            Seq::empty()
        } else if self.passes_prop(owner, ps.last()) {
            self.folding_props(owner, ps.drop_last()).push(
                SchemaPropertyView { stale: None, ..ps.last() },
            )
        } else {
            self.folding_props(owner, ps.drop_last())
        }
    }

    /// Does the plan hold a version of the property that stays behind?
    pub open spec fn prop_stays_behind(
        self,
        owner: Seq<char>,
        ps: Seq<SchemaPropertyView>,
        label: Seq<char>,
    ) -> bool {
        exists|i: int|
            0 <= i < ps.len() && (#[trigger] ps[i]).label == label && !self.passes_prop(
                owner,
                ps[i],
            )
    }

    /// The committed properties whose planned version stays behind, in order.
    pub open spec fn kept_props(
        self,
        owner: Seq<char>,
        prior: Seq<SchemaPropertyView>,
        ps: Seq<SchemaPropertyView>,
    ) -> Seq<SchemaPropertyView>
        decreases prior.len(),
    {
        if prior.len() == 0 {
            Seq::empty()
        } else if self.prop_stays_behind(owner, ps, prior.last().label) {
            self.kept_props(owner, prior.drop_last(), ps).push(prior.last())
        } else {
            self.kept_props(owner, prior.drop_last(), ps)
        }
    }

    /// The committed copy of a planned node. What stays behind in the plan keeps
    /// its committed original.
    pub open spec fn node_copy(self, n: NodeView, prior: Option<NodeView>) -> NodeView {
        NodeView {
            vagrant: None,
            stale: None,
            responsibilities: self.folding(n.responsibilities) + (match prior {
                Some(p) => self.kept(p.responsibilities, n.responsibilities),
                None => Seq::empty(),
            }),
            properties: self.folding_props(n.id, n.properties) + (match prior {
                Some(p) => self.kept_props(n.id, p.properties, n.properties),
                None => Seq::empty(),
            }),
            ..n
        }
    }

    /// The committed copy of a planned group.
    pub open spec fn group_copy(self, g: GroupView, prior: Option<GroupView>) -> GroupView {
        GroupView {
            responsibilities: self.folding(g.responsibilities) + (match prior {
                Some(p) => self.kept(p.responsibilities, g.responsibilities),
                None => Seq::empty(),
            }),
            ..g
        }
    }

    /// The ids of the claims that fold, in order.
    pub open spec fn folding_ids(self, rs: Seq<ResponsibilityView>) -> Seq<Seq<char>>
        decreases rs.len(),
    {
        if rs.len() == 0 {
            Seq::empty()
        } else if self.passes(rs.last()) {
            self.folding_ids(rs.drop_last()).push(rs.last().id)
        } else {
            self.folding_ids(rs.drop_last())
        }
    }

    /// The plan's claims with the drift marks resolved on those that folded.
    pub open spec fn resolved(self, rs: Seq<ResponsibilityView>) -> Seq<ResponsibilityView> {
        Seq::new(
            rs.len(),
            |i: int|
                if self.passes(rs[i]) {
                    ResponsibilityView { stale: None, stale_proposal: None, ..rs[i] }
                } else {
                    rs[i]
                },
        )
    }

    /// The plan's properties with the drift mark resolved on those that folded.
    pub open spec fn resolved_props(
        self,
        owner: Seq<char>,
        ps: Seq<SchemaPropertyView>,
    ) -> Seq<SchemaPropertyView> {
        Seq::new(
            ps.len(),
            |i: int|
                if self.passes_prop(owner, ps[i]) {
                    SchemaPropertyView { stale: None, ..ps[i] }
                } else {
                    ps[i]
                },
        )
    }
}

/// What may pass, in executable form.
struct GateExec<'a> {
    host: String,
    map: &'a StrMap<String>,
    withhold: &'a Vec<String>,
}

impl<'a> GateExec<'a> {
    spec fn gate(self) -> Gate {
        Gate { host: self.host@, map: self.map.deep_view(), withhold: self.withhold.deep_view() }
    }

    fn passes(&self, r: &Responsibility) -> (b: bool)
        ensures
            b == self.gate().passes(r.deep_view()),
    {
        !is_on(&r.vagrant) && !holds(self.withhold, r.id.as_str()) && !foreign_to_host(
            self.map,
            self.host.as_str(),
            element_key(ElementKind::Responsibility, None, r.id.as_str()).as_str(),
        )
    }

    fn passes_prop(&self, owner: &str, p: &SchemaProperty) -> (b: bool)
        ensures
            b == self.gate().passes_prop(owner@, p.deep_view()),
    {
        !is_on(&p.vagrant) && !foreign_to_host(
            self.map,
            self.host.as_str(),
            element_key(ElementKind::Property, Some(owner), p.label.as_str()).as_str(),
        )
    }

    fn folding(&self, rs: &Vec<Responsibility>) -> (r: Vec<Responsibility>)
        ensures
            r.deep_view() == self.gate().folding(rs.deep_view()),
    {
        let ghost rv = rs.deep_view();
        let mut out: Vec<Responsibility> = fresh();
        let mut i: usize = 0;
        assert(rv.take(0) =~= Seq::<ResponsibilityView>::empty());
        while i < rs.len()
            invariant
                i <= rs@.len(),
                rv == rs.deep_view(),
                out.deep_view() == self.gate().folding(rv.take(i as int)),
            decreases rs@.len() - i,
        {
            let x = at(rs, i);
            assert(rv.take(i + 1).drop_last() =~= rv.take(i as int));
            if self.passes(x) {
                put(&mut out, clean_committed_resp(x.dup()));
            }
            i += 1;
        }
        assert(rv.take(rv.len() as int) =~= rv);
        out
    }

    fn stays_behind(&self, rs: &Vec<Responsibility>, id: &str) -> (b: bool)
        ensures
            b == self.gate().stays_behind(rs.deep_view(), id@),
    {
        let ghost rv = rs.deep_view();
        let mut i: usize = 0;
        while i < rs.len()
            invariant
                i <= rs@.len(),
                rv == rs.deep_view(),
                forall|j: int|
                    0 <= j < i ==> !((#[trigger] rv[j]).id == id@ && !self.gate().passes(rv[j])),
            decreases rs@.len() - i,
        {
            let x = at(rs, i);
            if same_text(x.id.as_str(), id) && !self.passes(x) {
                assert(rv[i as int].id == id@ && !self.gate().passes(rv[i as int]));
                return true;
            }
            i += 1;
        }
        false
    }

    fn add_kept(
        &self,
        out: &mut Vec<Responsibility>,
        prior: &Vec<Responsibility>,
        rs: &Vec<Responsibility>,
    )
        ensures
            final(out).deep_view() == old(out).deep_view() + self.gate().kept(
                prior.deep_view(),
                rs.deep_view(),
            ),
    {
        let ghost pv = prior.deep_view();
        let ghost rv = rs.deep_view();
        let ghost start = out.deep_view();
        let mut i: usize = 0;
        assert(pv.take(0) =~= Seq::<ResponsibilityView>::empty());
        assert(start + self.gate().kept(pv.take(0), rv) =~= start);
        while i < prior.len()
            invariant
                i <= prior@.len(),
                pv == prior.deep_view(),
                rv == rs.deep_view(),
                out.deep_view() == start + self.gate().kept(pv.take(i as int), rv),
            decreases prior@.len() - i,
        {
            let x = at(prior, i);
            assert(pv.take(i + 1).drop_last() =~= pv.take(i as int));
            if self.stays_behind(rs, x.id.as_str()) {
                put(out, x.dup());
                assert(out.deep_view() =~= start + self.gate().kept(pv.take(i + 1), rv));
            }
            i += 1;
        }
        assert(pv.take(pv.len() as int) =~= pv);
    }

    fn folding_props(&self, owner: &str, ps: &Vec<SchemaProperty>) -> (r: Vec<SchemaProperty>)
        ensures
            r.deep_view() == self.gate().folding_props(owner@, ps.deep_view()),
    {
        let ghost pv = ps.deep_view();
        let mut out: Vec<SchemaProperty> = fresh();
        let mut i: usize = 0;
        assert(pv.take(0) =~= Seq::<SchemaPropertyView>::empty());
        while i < ps.len()
            invariant
                i <= ps@.len(),
                pv == ps.deep_view(),
                out.deep_view() == self.gate().folding_props(owner@, pv.take(i as int)),
            decreases ps@.len() - i,
        {
            let x = at(ps, i);
            assert(pv.take(i + 1).drop_last() =~= pv.take(i as int));
            if self.passes_prop(owner, x) {
                let mut c = x.dup();
                c.stale = None;
                put(&mut out, c);
            }
            i += 1;
        }
        assert(pv.take(pv.len() as int) =~= pv);
        out
    }

    fn prop_stays_behind(&self, owner: &str, ps: &Vec<SchemaProperty>, label: &str) -> (b: bool)
        ensures
            b == self.gate().prop_stays_behind(owner@, ps.deep_view(), label@),
    {
        let ghost pv = ps.deep_view();
        let mut i: usize = 0;
        while i < ps.len()
            invariant
                i <= ps@.len(),
                pv == ps.deep_view(),
                forall|j: int|
                    0 <= j < i ==> !((#[trigger] pv[j]).label == label@
                        && !self.gate().passes_prop(owner@, pv[j])),
            decreases ps@.len() - i,
        {
            let x = at(ps, i);
            if same_text(x.label.as_str(), label) && !self.passes_prop(owner, x) {
                assert(pv[i as int].label == label@ && !self.gate().passes_prop(
                    owner@,
                    pv[i as int],
                ));
                return true;
            }
            i += 1;
        }
        false
    }

    fn add_kept_props(
        &self,
        owner: &str,
        out: &mut Vec<SchemaProperty>,
        prior: &Vec<SchemaProperty>,
        ps: &Vec<SchemaProperty>,
    )
        ensures
            final(out).deep_view() == old(out).deep_view() + self.gate().kept_props(
                owner@,
                prior.deep_view(),
                ps.deep_view(),
            ),
    {
        let ghost qv = prior.deep_view();
        let ghost pv = ps.deep_view();
        let ghost start = out.deep_view();
        let mut i: usize = 0;
        assert(qv.take(0) =~= Seq::<SchemaPropertyView>::empty());
        assert(start + self.gate().kept_props(owner@, qv.take(0), pv) =~= start);
        while i < prior.len()
            invariant
                i <= prior@.len(),
                qv == prior.deep_view(),
                pv == ps.deep_view(),
                out.deep_view() == start + self.gate().kept_props(owner@, qv.take(i as int), pv),
            decreases prior@.len() - i,
        {
            let x = at(prior, i);
            assert(qv.take(i + 1).drop_last() =~= qv.take(i as int));
            if self.prop_stays_behind(owner, ps, x.label.as_str()) {
                put(out, x.dup());
                assert(out.deep_view() =~= start + self.gate().kept_props(
                    owner@,
                    qv.take(i + 1),
                    pv,
                ));
            }
            i += 1;
        }
        assert(qv.take(qv.len() as int) =~= qv);
    }

    fn committed_node_copy(&self, n: &Node, prior: &Option<Node>) -> (r: Node)
        ensures
            r.deep_view() == self.gate().node_copy(n.deep_view(), prior.deep_view()),
    {
        let mut copy = n.dup();
        copy.vagrant = None;
        copy.stale = None;
        copy.responsibilities = self.folding(&n.responsibilities);
        copy.properties = self.folding_props(n.id.as_str(), &n.properties);
        match prior {
            Some(p) => {
                self.add_kept(&mut copy.responsibilities, &p.responsibilities, &n.responsibilities);
                self.add_kept_props(
                    n.id.as_str(),
                    &mut copy.properties,
                    &p.properties,
                    &n.properties,
                );
            },
            None => {},
        }
        assert(copy.deep_view() =~= self.gate().node_copy(n.deep_view(), prior.deep_view()));
        copy
    }

    fn committed_group_copy(&self, g: &Group, prior: &Option<Group>) -> (r: Group)
        ensures
            r.deep_view() == self.gate().group_copy(g.deep_view(), prior.deep_view()),
    {
        let mut copy = g.dup();
        copy.responsibilities = self.folding(&g.responsibilities);
        match prior {
            Some(p) => {
                self.add_kept(&mut copy.responsibilities, &p.responsibilities, &g.responsibilities);
            },
            None => {},
        }
        assert(copy.deep_view() =~= self.gate().group_copy(g.deep_view(), prior.deep_view()));
        copy
    }

    fn folding_ids(&self, rs: &Vec<Responsibility>) -> (r: Vec<String>)
        ensures
            r.deep_view() == self.gate().folding_ids(rs.deep_view()),
    {
        let ghost rv = rs.deep_view();
        let mut out: Vec<String> = fresh();
        let mut i: usize = 0;
        assert(rv.take(0) =~= Seq::<ResponsibilityView>::empty());
        while i < rs.len()
            invariant
                i <= rs@.len(),
                rv == rs.deep_view(),
                out.deep_view() == self.gate().folding_ids(rv.take(i as int)),
            decreases rs@.len() - i,
        {
            let x = at(rs, i);
            assert(rv.take(i + 1).drop_last() =~= rv.take(i as int));
            if self.passes(x) {
                put(&mut out, x.id.clone());
            }
            i += 1;
        }
        assert(rv.take(rv.len() as int) =~= rv);
        out
    }

    fn resolve(&self, rs: &Vec<Responsibility>) -> (r: Vec<Responsibility>)
        ensures
            r.deep_view() == self.gate().resolved(rs.deep_view()),
    {
        let ghost all = self.gate().resolved(rs.deep_view());
        let mut out: Vec<Responsibility> = fresh();
        let mut i: usize = 0;
        assert(all.take(0) =~= Seq::<ResponsibilityView>::empty());
        while i < rs.len()
            invariant
                i <= rs@.len(),
                all == self.gate().resolved(rs.deep_view()),
                out.deep_view() == all.take(i as int),
            decreases rs@.len() - i,
        {
            let mut x = at(rs, i).dup();
            if self.passes(&x) {
                x.stale = None;
                x.stale_proposal = None;
            }
            put(&mut out, x);
            assert(all.take(i + 1) =~= all.take(i as int).push(all[i as int]));
            i += 1;
        }
        assert(all.take(all.len() as int) =~= all);
        out
    }

    fn resolve_props(&self, owner: &str, ps: &Vec<SchemaProperty>) -> (r: Vec<SchemaProperty>)
        ensures
            r.deep_view() == self.gate().resolved_props(owner@, ps.deep_view()),
    {
        let ghost all = self.gate().resolved_props(owner@, ps.deep_view());
        let mut out: Vec<SchemaProperty> = fresh();
        let mut i: usize = 0;
        assert(all.take(0) =~= Seq::<SchemaPropertyView>::empty());
        while i < ps.len()
            invariant
                i <= ps@.len(),
                all == self.gate().resolved_props(owner@, ps.deep_view()),
                out.deep_view() == all.take(i as int),
            decreases ps@.len() - i,
        {
            let mut x = at(ps, i).dup();
            if self.passes_prop(owner, &x) {
                x.stale = None;
            }
            put(&mut out, x);
            assert(all.take(i + 1) =~= all.take(i as int).push(all[i as int]));
            i += 1;
        }
        assert(all.take(all.len() as int) =~= all);
        out
    }
}

// ---- anchors --------------------------------------------------------------------

/// `base`, with what `plan` holds at the given keys.
pub open spec fn moved_in<A>(
    base: Map<Seq<char>, A>,
    plan: Map<Seq<char>, A>,
    ks: Seq<Seq<char>>,
) -> Map<Seq<char>, A> {
    base.union_prefer_right(plan.restrict(ks.to_set()))
}

fn move_in<V: Modelled>(base: &mut StrMap<V>, plan: &mut StrMap<V>, ks: &Vec<String>)
    ensures
        final(base).deep_view() == moved_in(
            old(base).deep_view(),
            old(plan).deep_view(),
            ks.deep_view(),
        ),
        final(plan).deep_view() == old(plan).deep_view().remove_keys(ks.deep_view().to_set()),
{
    let ghost b0 = base.deep_view();
    let ghost p0 = plan.deep_view();
    let ghost kv = ks.deep_view();
    let rest = plan.except(ks);
    let mut i: usize = 0;
    assert(moved_in(b0, p0, kv.take(0)) =~= b0);
    while i < ks.len()
        invariant
            i <= ks@.len(),
            kv == ks.deep_view(),
            p0 == plan.deep_view(),
            base.deep_view() == moved_in(b0, p0, kv.take(i as int)),
        decreases ks@.len() - i,
    {
        let k = at(ks, i);
        match plan.get(k.as_str()) {
            Some(v) => {
                base.insert(k.clone(), v.dup());
            },
            None => {},
        }
        proof {
            let t0 = kv.take(i as int);
            let t1 = kv.take(i + 1);
            assert(t1 =~= t0.push(kv[i as int]));
            assert forall|q: Seq<char>| t1.to_set().contains(q) == (q == kv[i as int]
                || t0.to_set().contains(q)) by {
                if t0.contains(q) {
                    let j = choose|j: int| 0 <= j < t0.len() && t0[j] == q;
                    assert(t1[j] == q);
                }
                assert(t1[i as int] == kv[i as int]);
            }
            assert(base.deep_view() =~= moved_in(b0, p0, t1));
        }
        i += 1;
    }
    assert(kv.take(kv.len() as int) =~= kv);
    *plan = rest;
}

fn just(id: &str) -> (r: Vec<String>)
    ensures
        r.deep_view() == seq![id@],
{
    let mut v: Vec<String> = fresh();
    put(&mut v, id.to_owned());
    assert(v.deep_view() =~= seq![id@]);
    v
}

// ---- the fold of one element ------------------------------------------------------

/// The two layers, and whether the element left the plan for good.
pub struct Layers {
    pub committed: ScryModelView,
    pub planned: ScryModelView,
    pub purged: bool,
}

/// What of a node may pass.
pub open spec fn node_gate(p: ScryModelView, id: Seq<char>, withhold: Seq<Seq<char>>) -> Gate {
    Gate { host: key(ElementKind::Node, None, id), map: p.change_map, withhold }
}

/// What of a group may pass.
pub open spec fn group_gate(p: ScryModelView, id: Seq<char>, withhold: Seq<Seq<char>>) -> Gate {
    Gate { host: key(ElementKind::Group, None, id), map: p.change_map, withhold }
}

/// What is said of a node whose parent is not committed.
pub open spec fn parent_missing(id: Seq<char>, pid: Seq<char>) -> Seq<char> {
    "cannot commit node '"@ + id + "': its parent '"@ + pid
        + "' is not in the committed model yet (commit the parent first)"@
}

/// The planned node `n` folded in.
pub open spec fn node_in(
    m: ScryModelView,
    p: ScryModelView,
    id: Seq<char>,
    n: NodeView,
    withhold: Seq<Seq<char>>,
) -> Layers {
    let gate = node_gate(p, id, withhold);
    let ks = seq![id] + gate.folding_ids(n.responsibilities);
    let i = place_of::<Node>(p.nodes, id);
    Layers {
        committed: ScryModelView {
            nodes: others::<Node>(m.nodes, id).push(
                gate.node_copy(n, first::<Node>(m.nodes, id)),
            ),
            source_map: moved_in(m.source_map, p.source_map, ks),
            test_map: moved_in(m.test_map, p.test_map, ks),
            boundaries: moved_in(m.boundaries, p.boundaries, seq![id]),
            ..m
        },
        planned: ScryModelView {
            nodes: p.nodes.update(
                i,
                NodeView {
                    vagrant: None,
                    stale: None,
                    responsibilities: gate.resolved(n.responsibilities),
                    properties: gate.resolved_props(id, n.properties),
                    ..n
                },
            ),
            source_map: p.source_map.remove_keys(ks.to_set()),
            test_map: p.test_map.remove_keys(ks.to_set()),
            boundaries: p.boundaries.remove_keys(seq![id].to_set()),
            ..p
        },
        purged: false,
    }
}

/// The ids of `s` that name no node of `ns`, in order.
pub open spec fn not_there(s: Seq<Seq<char>>, ns: Seq<NodeView>) -> Seq<Seq<char>>
    decreases s.len(),
{
    if s.len() == 0 {
        Seq::empty()
    } else if has_named::<Node>(ns, s.last()) {
        not_there(s.drop_last(), ns)
    } else {
        not_there(s.drop_last(), ns).push(s.last())
    }
}

/// The part of a committed subtree that the plan agrees is gone.
pub open spec fn removed_ids(
    m: ScryModelView,
    p: ScryModelView,
    id: Seq<char>,
) -> Seq<Seq<char>> {
    not_there(subtree(m.nodes, id), p.nodes)
}

/// The nodes whose id is not among `gone`, in order.
pub open spec fn nodes_outside(ns: Seq<NodeView>, gone: Seq<Seq<char>>) -> Seq<NodeView>
    decreases ns.len(),
{
    if ns.len() == 0 {
        Seq::empty()
    } else if gone.contains(ns.last().id) {
        nodes_outside(ns.drop_last(), gone)
    } else {
        nodes_outside(ns.drop_last(), gone).push(ns.last())
    }
}

/// The links with both ends outside `gone`, in order.
pub open spec fn links_outside(ls: Seq<LinkView>, gone: Seq<Seq<char>>) -> Seq<LinkView>
    decreases ls.len(),
{
    if ls.len() == 0 {
        Seq::empty()
    } else if gone.contains(ls.last().src) || gone.contains(ls.last().dst) {
        links_outside(ls.drop_last(), gone)
    } else {
        links_outside(ls.drop_last(), gone).push(ls.last())
    }
}

/// The groups without the members in `gone`.
pub open spec fn members_outside(gs: Seq<GroupView>, gone: Seq<Seq<char>>) -> Seq<GroupView> {
    Seq::new(
        gs.len(),
        |i: int| GroupView { member_ids: without(gs[i].member_ids, gone), ..gs[i] },
    )
}

/// The ids of the claims that the nodes in `gone` carry.
pub open spec fn claims_inside(ns: Seq<NodeView>, gone: Seq<Seq<char>>) -> Seq<Seq<char>>
    decreases ns.len(),
{
    if ns.len() == 0 {
        Seq::empty()
    } else if gone.contains(ns.last().id) {
        claims_inside(ns.drop_last(), gone) + names::<Responsibility>(ns.last().responsibilities)
    } else {
        claims_inside(ns.drop_last(), gone)
    }
}

/// The node `id` and what hangs on it folded out: its subtree as far as the plan
/// agrees, the links and memberships that touch it, boundaries and anchors.
pub open spec fn node_out(m: ScryModelView, p: ScryModelView, id: Seq<char>) -> Layers {
    let gone = removed_ids(m, p, id);
    let claims = claims_inside(m.nodes, gone);
    Layers {
        committed: ScryModelView {
            nodes: nodes_outside(m.nodes, gone),
            links: links_outside(m.links, gone),
            groups: members_outside(m.groups, gone),
            source_map: m.source_map.remove_keys(gone.to_set()).remove_keys(claims.to_set()),
            test_map: m.test_map.remove_keys(claims.to_set()),
            boundaries: m.boundaries.remove_keys(gone.to_set()),
            ..m
        },
        planned: ScryModelView {
            nodes: others::<Node>(p.nodes, id),
            boundaries: p.boundaries.remove_keys(gone.to_set()),
            ..p
        },
        purged: true,
    }
}

/// A node folded.
pub open spec fn node_fold(
    m: ScryModelView,
    p: ScryModelView,
    id: Seq<char>,
    withhold: Seq<Seq<char>>,
) -> Result<Layers, Seq<char>> {
    match first::<Node>(p.nodes, id) {
        Some(n) => match n.parent_id {
            Some(pid) => if pid == id || !has_named::<Node>(m.nodes, pid) {
                Err(parent_missing(id, pid))
            } else {
                Ok(node_in(m, p, id, n, withhold))
            },
            None => Ok(node_in(m, p, id, n, withhold)),
        },
        None => Ok(node_out(m, p, id)),
    }
}

/// What is said of a link whose end is not committed.
pub open spec fn end_missing(id: Seq<char>, end: Seq<char>) -> Seq<char> {
    "cannot commit link '"@ + id + "': its endpoint '"@ + end
        + "' is not in the committed model yet (commit the node first)"@
}

/// A link folded.
pub open spec fn link_fold(
    m: ScryModelView,
    p: ScryModelView,
    id: Seq<char>,
) -> Result<Layers, Seq<char>> {
    match first::<Link>(p.links, id) {
        Some(l) => if !has_named::<Node>(m.nodes, l.src) {
            Err(end_missing(id, l.src))
        } else if !has_named::<Node>(m.nodes, l.dst) {
            Err(end_missing(id, l.dst))
        } else {
            Ok(
                Layers {
                    committed: ScryModelView { links: others::<Link>(m.links, id).push(l), ..m },
                    planned: p,
                    purged: false,
                },
            )
        },
        None => Ok(
            Layers {
                committed: ScryModelView { links: others::<Link>(m.links, id), ..m },
                planned: ScryModelView { links: others::<Link>(p.links, id), ..p },
                purged: true,
            },
        ),
    }
}

/// What is said of a group whose anchor node is not committed.
pub open spec fn anchor_missing(id: Seq<char>, pid: Seq<char>) -> Seq<char> {
    "cannot commit group '"@ + id + "': its anchor node '"@ + pid
        + "' is not in the committed model yet (commit the node first)"@
}

/// What is said of a group whose parent group is not committed.
pub open spec fn parent_group_missing(id: Seq<char>, pid: Seq<char>) -> Seq<char> {
    "cannot commit group '"@ + id + "': its parent group '"@ + pid
        + "' is not in the committed model yet (commit that group first)"@
}

/// What is said of a group with a member that is not committed.
pub open spec fn member_missing(id: Seq<char>, mid: Seq<char>) -> Seq<char> {
    "cannot commit group '"@ + id + "': member '"@ + mid
        + "' is not in the committed model yet (commit the member first)"@
}

/// The first member that is not committed, if there is one.
pub open spec fn first_absent(ms: Seq<Seq<char>>, ns: Seq<NodeView>) -> Option<Seq<char>>
    decreases ms.len(),
{
    if ms.len() == 0 {
        None
    } else if !has_named::<Node>(ns, ms[0]) {
        Some(ms[0])
    } else {
        first_absent(ms.drop_first(), ns)
    }
}

/// Why a group cannot fold, if it cannot: its anchor, its parent group and its
/// members must be committed.
pub open spec fn group_refused(m: ScryModelView, g: GroupView, id: Seq<char>) -> Option<
    Seq<char>,
> {
    if g.parent_node_id is Some && !has_named::<Node>(m.nodes, g.parent_node_id->0) {
        Some(anchor_missing(id, g.parent_node_id->0))
    } else if g.parent_group_id is Some && !has_named::<Group>(
        others::<Group>(m.groups, id),
        g.parent_group_id->0,
    ) {
        Some(parent_group_missing(id, g.parent_group_id->0))
    } else {
        match first_absent(g.member_ids, m.nodes) {
            Some(mid) => Some(member_missing(id, mid)),
            None => None,
        }
    }
}

/// A group folded.
pub open spec fn group_fold(
    m: ScryModelView,
    p: ScryModelView,
    id: Seq<char>,
    withhold: Seq<Seq<char>>,
) -> Result<Layers, Seq<char>> {
    match first::<Group>(p.groups, id) {
        Some(g) => match group_refused(m, g, id) {
            Some(e) => Err(e),
            None => {
                let gate = group_gate(p, id, withhold);
                let ks = gate.folding_ids(g.responsibilities);
                let i = place_of::<Group>(p.groups, id);
                Ok(
                    Layers {
                        committed: ScryModelView {
                            groups: others::<Group>(m.groups, id).push(
                                gate.group_copy(g, first::<Group>(m.groups, id)),
                            ),
                            source_map: moved_in(m.source_map, p.source_map, ks),
                            test_map: moved_in(m.test_map, p.test_map, ks),
                            ..m
                        },
                        planned: ScryModelView {
                            groups: p.groups.update(
                                i,
                                GroupView {
                                    responsibilities: gate.resolved(g.responsibilities),
                                    ..g
                                },
                            ),
                            source_map: p.source_map.remove_keys(ks.to_set()),
                            test_map: p.test_map.remove_keys(ks.to_set()),
                            ..p
                        },
                        purged: false,
                    },
                )
            },
        },
        None => {
            let claims = match first::<Group>(m.groups, id) {
                Some(g) => names::<Responsibility>(g.responsibilities),
                None => Seq::empty(),
            };
            Ok(
                Layers {
                    committed: ScryModelView {
                        groups: others::<Group>(m.groups, id),
                        source_map: m.source_map.remove_keys(claims.to_set()),
                        test_map: m.test_map.remove_keys(claims.to_set()),
                        ..m
                    },
                    planned: ScryModelView { groups: others::<Group>(p.groups, id), ..p },
                    purged: true,
                },
            )
        },
    }
}

/// What is said of a claim whose host is not committed.
pub open spec fn host_missing(id: Seq<char>, host: Seq<char>) -> Seq<char> {
    "cannot commit responsibility '"@ + id + "': its host '"@ + host
        + "' is not in the committed model yet (commit the host node/group first)"@
}

/// Where the first node with a claim called `id` stands; the length when none has
/// it.
pub open spec fn node_with_claim(ns: Seq<NodeView>, id: Seq<char>) -> int
    decreases ns.len(),
{
    if ns.len() == 0 || has_named::<Responsibility>(ns[0].responsibilities, id) {
        0
    } else {
        1 + node_with_claim(ns.drop_first(), id)
    }
}

/// Where the first group with a claim called `id` stands; the length when none
/// has it.
pub open spec fn group_with_claim(gs: Seq<GroupView>, id: Seq<char>) -> int
    decreases gs.len(),
{
    if gs.len() == 0 || has_named::<Responsibility>(gs[0].responsibilities, id) {
        0
    } else {
        1 + group_with_claim(gs.drop_first(), id)
    }
}

/// The claims with the marks gone from the first one called `id`.
pub open spec fn adopted(rs: Seq<ResponsibilityView>, id: Seq<char>) -> Seq<ResponsibilityView> {
    let i = place_of::<Responsibility>(rs, id);
    rs.update(i, clean(rs[i]))
}

/// The plan with the marks gone from the first claim called `id`.
pub open spec fn claim_adopted(p: ScryModelView, id: Seq<char>) -> ScryModelView {
    let i = node_with_claim(p.nodes, id);
    let j = group_with_claim(p.groups, id);
    if i < p.nodes.len() {
        ScryModelView {
            nodes: p.nodes.update(
                i,
                NodeView {
                    responsibilities: adopted(p.nodes[i].responsibilities, id),
                    ..p.nodes[i]
                },
            ),
            ..p
        }
    } else if j < p.groups.len() {
        ScryModelView {
            groups: p.groups.update(
                j,
                GroupView {
                    responsibilities: adopted(p.groups[j].responsibilities, id),
                    ..p.groups[j]
                },
            ),
            ..p
        }
    } else {
        p
    }
}

/// A claim folded: it lands on its planned host, and leaves every other.
pub open spec fn claim_fold(
    m: ScryModelView,
    p: ScryModelView,
    id: Seq<char>,
) -> Result<Layers, Seq<char>> {
    let ns = nodes_without_claim(m.nodes, id);
    let gs = groups_without_claim(m.groups, id);
    match claim_of(p, id) {
        Some((host, r)) => {
            let i = place_of::<Node>(ns, host);
            let j = place_of::<Group>(gs, host);
            if i >= ns.len() && j >= gs.len() {
                Err(host_missing(id, host))
            } else {
                let a = claim_adopted(p, id);
                Ok(
                    Layers {
                        committed: ScryModelView {
                            nodes: if i < ns.len() {
                                ns.update(
                                    i,
                                    NodeView {
                                        responsibilities: ns[i].responsibilities.push(clean(r)),
                                        ..ns[i]
                                    },
                                )
                            } else {
                                ns
                            },
                            groups: if i < ns.len() {
                                gs
                            } else {
                                gs.update(
                                    j,
                                    GroupView {
                                        responsibilities: gs[j].responsibilities.push(clean(r)),
                                        ..gs[j]
                                    },
                                )
                            },
                            source_map: moved_in(m.source_map, p.source_map, seq![id]),
                            test_map: moved_in(m.test_map, p.test_map, seq![id]),
                            ..m
                        },
                        planned: ScryModelView {
                            source_map: p.source_map.remove_keys(seq![id].to_set()),
                            test_map: p.test_map.remove_keys(seq![id].to_set()),
                            ..a
                        },
                        purged: false,
                    },
                )
            }
        },
        None => Ok(
            Layers {
                committed: ScryModelView {
                    nodes: ns,
                    groups: gs,
                    source_map: m.source_map.remove(id),
                    test_map: m.test_map.remove(id),
                    ..m
                },
                planned: ScryModelView {
                    nodes: nodes_without_claim(p.nodes, id),
                    groups: groups_without_claim(p.groups, id),
                    ..p
                },
                purged: true,
            },
        ),
    }
}

/// What is said of a property without an owner.
pub open spec fn owner_needed() -> Seq<char> {
    "committing a property requires its owner node id"@
}

/// What is said of a property whose owner is not committed.
pub open spec fn owner_missing(id: Seq<char>, owner: Seq<char>) -> Seq<char> {
    "cannot commit property '"@ + id + "': owner node '"@ + owner + "' not in the model"@
}

/// A property without the marks that await a verdict.
pub open spec fn clean_prop(p: SchemaPropertyView) -> SchemaPropertyView {
    SchemaPropertyView { vagrant: None, stale: None, ..p }
}

/// A property folded.
pub open spec fn prop_fold(
    m: ScryModelView,
    p: ScryModelView,
    owner: Option<Seq<char>>,
    id: Seq<char>,
) -> Result<Layers, Seq<char>> {
    match owner {
        None => Err(owner_needed()),
        Some(o) => {
            let i = place_of::<Node>(m.nodes, o);
            if i >= m.nodes.len() {
                Err(owner_missing(id, o))
            } else {
                let n = m.nodes[i];
                let bare = others::<SchemaProperty>(n.properties, id);
                let k = place_of::<Node>(p.nodes, o);
                let q = place_of::<SchemaProperty>(p.nodes[k].properties, id);
                let planned_there = k < p.nodes.len() && q < p.nodes[k].properties.len();
                let props = if planned_there {
                    bare.push(clean_prop(p.nodes[k].properties[q]))
                } else {
                    bare
                };
                Ok(
                    Layers {
                        committed: ScryModelView {
                            nodes: m.nodes.update(i, NodeView { properties: props, ..n }),
                            ..m
                        },
                        planned: if planned_there {
                            ScryModelView {
                                nodes: p.nodes.update(
                                    k,
                                    NodeView {
                                        properties: p.nodes[k].properties.update(
                                            q,
                                            clean_prop(p.nodes[k].properties[q]),
                                        ),
                                        ..p.nodes[k]
                                    },
                                ),
                                ..p
                            }
                        } else {
                            p
                        },
                        purged: false,
                    },
                )
            }
        },
    }
}

/// An element folded, before the clean-up of the ledger.
pub open spec fn element_fold(
    m: ScryModelView,
    p: ScryModelView,
    kind: ElementKind,
    owner: Option<Seq<char>>,
    id: Seq<char>,
    withhold: Seq<Seq<char>>,
) -> Result<Layers, Seq<char>> {
    match kind {
        ElementKind::Node => node_fold(m, p, id, withhold),
        ElementKind::Link => link_fold(m, p, id),
        ElementKind::Group => group_fold(m, p, id, withhold),
        ElementKind::Responsibility => claim_fold(m, p, id),
        ElementKind::Property => prop_fold(m, p, owner, id),
    }
}

/// An element folded: the layers, the changes that closed, and whether the plan
/// must be written back.
pub struct Fold {
    pub committed: ScryModelView,
    pub planned: ScryModelView,
    pub closed: Seq<ChangeMetaView>,
    pub rewrites: bool,
}

/// An element folded, with the ledger cleaned up.
pub open spec fn fold(
    m: ScryModelView,
    p: ScryModelView,
    kind: ElementKind,
    owner: Option<Seq<char>>,
    id: Seq<char>,
    withhold: Seq<Seq<char>>,
) -> Result<Fold, Seq<char>> {
    match element_fold(m, p, kind, owner, id, withhold) {
        Err(e) => Err(e),
        Ok(l) => {
            let plan = cleaned(l.committed, l.planned);
            Ok(
                Fold {
                    committed: l.committed,
                    planned: plan,
                    closed: closed_by_cleaning(l.committed, l.planned),
                    rewrites: l.purged || plan != p,
                },
            )
        },
    }
}

// ---- folding, executed ------------------------------------------------------------

/// Did a step on the two layers do what `l` says?
pub open spec fn done(
    r: Result<bool, String>,
    l: Result<Layers, Seq<char>>,
    committed: ScryModelView,
    planned: ScryModelView,
    m0: ScryModelView,
    p0: ScryModelView,
) -> bool {
    match r {
        Ok(purged) => l == Ok::<Layers, Seq<char>>(Layers { committed, planned, purged }),
        Err(e) => l == Err::<Layers, Seq<char>>(e@) && committed == m0 && planned == p0,
    }
}

fn say(a: &str, id: &str, b: &str, other: &str, c: &str) -> (r: String)
    ensures
        r@ == a@ + id@ + b@ + other@ + c@,
{
    let mut s = cat3(a, id, b);
    s.append(other);
    s.append(c);
    s
}

fn fold_node_in(
    model: &mut ScryModel,
    plan: &mut ScryModel,
    id: &str,
    i: usize,
    withhold: &Vec<String>,
)
    requires
        i < old(plan).nodes@.len(),
        i == place_of::<Node>(old(plan).deep_view().nodes, id@),
        first::<Node>(old(plan).deep_view().nodes, id@) == Some(
            old(plan).deep_view().nodes[i as int],
        ),
        old(plan).deep_view().nodes[i as int].id == id@,
    ensures
        ({
            let l = node_in(
                old(model).deep_view(),
                old(plan).deep_view(),
                id@,
                old(plan).deep_view().nodes[i as int],
                withhold.deep_view(),
            );
            final(model).deep_view() == l.committed && final(plan).deep_view() == l.planned
        }),
{
    let ghost m = model.deep_view();
    let ghost p = plan.deep_view();
    let n = at(&plan.nodes, i).dup();
    let ghost nv = p.nodes[i as int];
    let gate = GateExec {
        host: element_key(ElementKind::Node, None, id),
        map: &plan.change_map,
        withhold,
    };
    let prior = pick(&model.nodes, id);
    let copy = gate.committed_node_copy(&n, &prior);
    let mut ks = just(id);
    let mut claims = gate.folding_ids(&n.responsibilities);
    let ghost cv = claims.deep_view();
    let mut j: usize = 0;
    assert(seq![id@] + cv.take(0) =~= seq![id@]);
    while j < claims.len()
        invariant
            j <= claims@.len(),
            cv == claims.deep_view(),
            ks.deep_view() == seq![id@] + cv.take(j as int),
        decreases claims@.len() - j,
    {
        put(&mut ks, at(&claims, j).clone());
        assert(seq![id@] + cv.take(j + 1) =~= (seq![id@] + cv.take(j as int)).push(cv[j as int]));
        j += 1;
    }
    assert(cv.take(cv.len() as int) =~= cv);
    let mut mark = n.dup();
    mark.vagrant = None;
    mark.stale = None;
    mark.responsibilities = gate.resolve(&n.responsibilities);
    mark.properties = gate.resolve_props(id, &n.properties);
    let mut nodes = except(&model.nodes, id);
    put(&mut nodes, copy);
    model.nodes = nodes;
    set_at(&mut plan.nodes, i, mark);
    move_in(&mut model.source_map, &mut plan.source_map, &ks);
    move_in(&mut model.test_map, &mut plan.test_map, &ks);
    let own = just(id);
    move_in(&mut model.boundaries, &mut plan.boundaries, &own);
    proof {
        let l = node_in(m, p, id@, nv, withhold.deep_view());
        assert(model.deep_view() =~= l.committed);
        assert(plan.deep_view() =~= l.planned);
    }
}

fn missing_from(s: &Vec<String>, ns: &Vec<Node>) -> (r: Vec<String>)
    ensures
        r.deep_view() == not_there(s.deep_view(), ns.deep_view()),
{
    let ghost sv = s.deep_view();
    let mut out: Vec<String> = fresh();
    let mut i: usize = 0;
    assert(sv.take(0) =~= Seq::<Seq<char>>::empty());
    while i < s.len()
        invariant
            i <= s@.len(),
            sv == s.deep_view(),
            out.deep_view() == not_there(sv.take(i as int), ns.deep_view()),
        decreases s@.len() - i,
    {
        let x = at(s, i);
        assert(sv.take(i + 1).drop_last() =~= sv.take(i as int));
        if !there(ns, x.as_str()) {
            put(&mut out, x.clone());
        }
        i += 1;
    }
    assert(sv.take(sv.len() as int) =~= sv);
    out
}

fn keep_nodes(ns: &Vec<Node>, gone: &Vec<String>) -> (r: Vec<Node>)
    ensures
        r.deep_view() == nodes_outside(ns.deep_view(), gone.deep_view()),
{
    let ghost nv = ns.deep_view();
    let mut out: Vec<Node> = fresh();
    let mut i: usize = 0;
    assert(nv.take(0) =~= Seq::<NodeView>::empty());
    while i < ns.len()
        invariant
            i <= ns@.len(),
            nv == ns.deep_view(),
            out.deep_view() == nodes_outside(nv.take(i as int), gone.deep_view()),
        decreases ns@.len() - i,
    {
        let x = at(ns, i);
        assert(nv.take(i + 1).drop_last() =~= nv.take(i as int));
        if !holds(gone, x.id.as_str()) {
            put(&mut out, x.dup());
        }
        i += 1;
    }
    assert(nv.take(nv.len() as int) =~= nv);
    out
}

fn keep_links(ls: &Vec<Link>, gone: &Vec<String>) -> (r: Vec<Link>)
    ensures
        r.deep_view() == links_outside(ls.deep_view(), gone.deep_view()),
{
    let ghost lv = ls.deep_view();
    let mut out: Vec<Link> = fresh();
    let mut i: usize = 0;
    assert(lv.take(0) =~= Seq::<LinkView>::empty());
    while i < ls.len()
        invariant
            i <= ls@.len(),
            lv == ls.deep_view(),
            out.deep_view() == links_outside(lv.take(i as int), gone.deep_view()),
        decreases ls@.len() - i,
    {
        let x = at(ls, i);
        assert(lv.take(i + 1).drop_last() =~= lv.take(i as int));
        if !(holds(gone, x.src.as_str()) || holds(gone, x.dst.as_str())) {
            put(&mut out, x.dup());
        }
        i += 1;
    }
    assert(lv.take(lv.len() as int) =~= lv);
    out
}

fn keep_members(gs: &Vec<Group>, gone: &Vec<String>) -> (r: Vec<Group>)
    ensures
        r.deep_view() == members_outside(gs.deep_view(), gone.deep_view()),
{
    let ghost all = members_outside(gs.deep_view(), gone.deep_view());
    let mut out: Vec<Group> = fresh();
    let mut i: usize = 0;
    assert(all.take(0) =~= Seq::<GroupView>::empty());
    while i < gs.len()
        invariant
            i <= gs@.len(),
            all == members_outside(gs.deep_view(), gone.deep_view()),
            out.deep_view() == all.take(i as int),
        decreases gs@.len() - i,
    {
        let mut g = at(gs, i).dup();
        g.member_ids = minus(&g.member_ids, gone);
        put(&mut out, g);
        assert(all.take(i + 1) =~= all.take(i as int).push(all[i as int]));
        i += 1;
    }
    assert(all.take(all.len() as int) =~= all);
    out
}

fn claim_ids_inside(ns: &Vec<Node>, gone: &Vec<String>) -> (r: Vec<String>)
    ensures
        r.deep_view() == claims_inside(ns.deep_view(), gone.deep_view()),
{
    let ghost nv = ns.deep_view();
    let mut out: Vec<String> = fresh();
    let mut i: usize = 0;
    assert(nv.take(0) =~= Seq::<NodeView>::empty());
    while i < ns.len()
        invariant
            i <= ns@.len(),
            nv == ns.deep_view(),
            out.deep_view() == claims_inside(nv.take(i as int), gone.deep_view()),
        decreases ns@.len() - i,
    {
        let x = at(ns, i);
        assert(nv.take(i + 1).drop_last() =~= nv.take(i as int));
        if holds(gone, x.id.as_str()) {
            add_names(&mut out, &x.responsibilities);
        }
        i += 1;
    }
    assert(nv.take(nv.len() as int) =~= nv);
    out
}

fn fold_node_out(model: &mut ScryModel, plan: &mut ScryModel, id: &str)
    ensures
        ({
            let l = node_out(old(model).deep_view(), old(plan).deep_view(), id@);
            final(model).deep_view() == l.committed && final(plan).deep_view() == l.planned
        }),
{
    let ghost m = model.deep_view();
    let ghost p = plan.deep_view();
    let below = subtree_ids(model, id);
    let gone = missing_from(&below, &plan.nodes);
    let claims = claim_ids_inside(&model.nodes, &gone);
    model.nodes = keep_nodes(&model.nodes, &gone);
    model.links = keep_links(&model.links, &gone);
    model.groups = keep_members(&model.groups, &gone);
    model.boundaries = model.boundaries.except(&gone);
    model.source_map = model.source_map.except(&gone).except(&claims);
    model.test_map = model.test_map.except(&claims);
    plan.nodes = except(&plan.nodes, id);
    plan.boundaries = plan.boundaries.except(&gone);
    proof {
        let l = node_out(m, p, id@);
        assert(model.deep_view() =~= l.committed);
        assert(plan.deep_view() =~= l.planned);
    }
}

fn fold_node(
    model: &mut ScryModel,
    plan: &mut ScryModel,
    id: &str,
    withhold: &Vec<String>,
) -> (r: Result<bool, String>)
    ensures
        done(
            r,
            node_fold(old(model).deep_view(), old(plan).deep_view(), id@, withhold.deep_view()),
            final(model).deep_view(),
            final(plan).deep_view(),
            old(model).deep_view(),
            old(plan).deep_view(),
        ),
{
    match find(&plan.nodes, id) {
        None => {
            fold_node_out(model, plan, id);
            Ok(true)
        },
        Some(i) => {
            match &at(&plan.nodes, i).parent_id {
                Some(pid) => {
                    if same_text(pid.as_str(), id) || !there(&model.nodes, pid.as_str()) {
                        return Err(
                            say(
                                "cannot commit node '",
                                id,
                                "': its parent '",
                                pid.as_str(),
                                "' is not in the committed model yet (commit the parent first)",
                            ),
                        );
                    }
                },
                None => {},
            }
            fold_node_in(model, plan, id, i, withhold);
            Ok(false)
        },
    }
}

fn fold_link(model: &mut ScryModel, plan: &mut ScryModel, id: &str) -> (r: Result<bool, String>)
    ensures
        done(
            r,
            link_fold(old(model).deep_view(), old(plan).deep_view(), id@),
            final(model).deep_view(),
            final(plan).deep_view(),
            old(model).deep_view(),
            old(plan).deep_view(),
        ),
{
    match pick(&plan.links, id) {
        Some(l) => {
            if !there(&model.nodes, l.src.as_str()) {
                return Err(
                    say(
                        "cannot commit link '",
                        id,
                        "': its endpoint '",
                        l.src.as_str(),
                        "' is not in the committed model yet (commit the node first)",
                    ),
                );
            }
            if !there(&model.nodes, l.dst.as_str()) {
                return Err(
                    say(
                        "cannot commit link '",
                        id,
                        "': its endpoint '",
                        l.dst.as_str(),
                        "' is not in the committed model yet (commit the node first)",
                    ),
                );
            }
            let mut links = except(&model.links, id);
            put(&mut links, l);
            model.links = links;
            Ok(false)
        },
        None => {
            model.links = except(&model.links, id);
            plan.links = except(&plan.links, id);
            Ok(true)
        },
    }
}

fn absent_member(ms: &Vec<String>, ns: &Vec<Node>) -> (r: Option<String>)
    ensures
        r.deep_view() == first_absent(ms.deep_view(), ns.deep_view()),
{
    let ghost mv = ms.deep_view();
    let mut i: usize = 0;
    assert(mv.skip(0) =~= mv);
    while i < ms.len()
        invariant
            i <= ms@.len(),
            mv == ms.deep_view(),
            first_absent(mv.skip(i as int), ns.deep_view()) == first_absent(mv, ns.deep_view()),
        decreases ms@.len() - i,
    {
        let x = at(ms, i);
        assert(mv.skip(i as int).drop_first() =~= mv.skip(i + 1));
        if !there(ns, x.as_str()) {
            return Some(x.clone());
        }
        i += 1;
    }
    None
}

fn why_group_refused(model: &ScryModel, g: &Group, id: &str) -> (r: Option<String>)
    ensures
        r.deep_view() == group_refused(model.deep_view(), g.deep_view(), id@),
{
    match &g.parent_node_id {
        Some(pid) => {
            if !there(&model.nodes, pid.as_str()) {
                return Some(
                    say(
                        "cannot commit group '",
                        id,
                        "': its anchor node '",
                        pid.as_str(),
                        "' is not in the committed model yet (commit the node first)",
                    ),
                );
            }
        },
        None => {},
    }
    match &g.parent_group_id {
        Some(pid) => {
            let rest = except(&model.groups, id);
            if !there(&rest, pid.as_str()) {
                return Some(
                    say(
                        "cannot commit group '",
                        id,
                        "': its parent group '",
                        pid.as_str(),
                        "' is not in the committed model yet (commit that group first)",
                    ),
                );
            }
        },
        None => {},
    }
    match absent_member(&g.member_ids, &model.nodes) {
        Some(mid) => Some(
            say(
                "cannot commit group '",
                id,
                "': member '",
                mid.as_str(),
                "' is not in the committed model yet (commit the member first)",
            ),
        ),
        None => None,
    }
}

fn fold_group(
    model: &mut ScryModel,
    plan: &mut ScryModel,
    id: &str,
    withhold: &Vec<String>,
) -> (r: Result<bool, String>)
    ensures
        done(
            r,
            group_fold(old(model).deep_view(), old(plan).deep_view(), id@, withhold.deep_view()),
            final(model).deep_view(),
            final(plan).deep_view(),
            old(model).deep_view(),
            old(plan).deep_view(),
        ),
{
    let ghost m = model.deep_view();
    let ghost p = plan.deep_view();
    match find(&plan.groups, id) {
        Some(i) => {
            let g = at(&plan.groups, i).dup();
            match why_group_refused(model, &g, id) {
                Some(e) => {
                    return Err(e);
                },
                None => {},
            }
            let gate = GateExec {
                host: element_key(ElementKind::Group, None, id),
                map: &plan.change_map,
                withhold,
            };
            let prior = pick(&model.groups, id);
            let copy = gate.committed_group_copy(&g, &prior);
            let ks = gate.folding_ids(&g.responsibilities);
            let mut mark = g.dup();
            mark.responsibilities = gate.resolve(&g.responsibilities);
            let mut groups = except(&model.groups, id);
            put(&mut groups, copy);
            model.groups = groups;
            set_at(&mut plan.groups, i, mark);
            move_in(&mut model.source_map, &mut plan.source_map, &ks);
            move_in(&mut model.test_map, &mut plan.test_map, &ks);
            proof {
                let l = group_fold(m, p, id@, withhold.deep_view())->Ok_0;
                assert(model.deep_view() =~= l.committed);
                assert(plan.deep_view() =~= l.planned);
            }
            Ok(false)
        },
        None => {
            let mut claims: Vec<String> = fresh();
            match find(&model.groups, id) {
                Some(k) => {
                    add_names(&mut claims, &at(&model.groups, k).responsibilities);
                },
                None => {},
            }
            proof {
                assert(claims.deep_view() =~= (match first::<Group>(m.groups, id@) {
                    Some(g) => names::<Responsibility>(g.responsibilities),
                    None => Seq::empty(),
                }));
            }
            model.groups = except(&model.groups, id);
            model.source_map = model.source_map.except(&claims);
            model.test_map = model.test_map.except(&claims);
            plan.groups = except(&plan.groups, id);
            Ok(true)
        },
    }
}

fn find_node_with_claim(ns: &Vec<Node>, id: &str) -> (r: usize)
    ensures
        r <= ns@.len(),
        r == node_with_claim(ns.deep_view(), id@),
        r < ns@.len() ==> has_named::<Responsibility>(
            ns.deep_view()[r as int].responsibilities,
            id@,
        ),
{
    let ghost nv = ns.deep_view();
    let mut i: usize = 0;
    assert(nv.skip(0) =~= nv);
    while i < ns.len()
        invariant
            i <= ns@.len(),
            nv == ns.deep_view(),
            i + node_with_claim(nv.skip(i as int), id@) == node_with_claim(nv, id@),
        decreases ns@.len() - i,
    {
        let n = at(ns, i);
        assert(nv.skip(i as int).drop_first() =~= nv.skip(i + 1));
        if there(&n.responsibilities, id) {
            return i;
        }
        i += 1;
    }
    i
}

fn find_group_with_claim(gs: &Vec<Group>, id: &str) -> (r: usize)
    ensures
        r <= gs@.len(),
        r == group_with_claim(gs.deep_view(), id@),
        r < gs@.len() ==> has_named::<Responsibility>(
            gs.deep_view()[r as int].responsibilities,
            id@,
        ),
{
    let ghost gv = gs.deep_view();
    let mut i: usize = 0;
    assert(gv.skip(0) =~= gv);
    while i < gs.len()
        invariant
            i <= gs@.len(),
            gv == gs.deep_view(),
            i + group_with_claim(gv.skip(i as int), id@) == group_with_claim(gv, id@),
        decreases gs@.len() - i,
    {
        let g = at(gs, i);
        assert(gv.skip(i as int).drop_first() =~= gv.skip(i + 1));
        if there(&g.responsibilities, id) {
            return i;
        }
        i += 1;
    }
    i
}

fn adopt_claim(rs: &mut Vec<Responsibility>, id: &str)
    requires
        has_named::<Responsibility>(old(rs).deep_view(), id@),
    ensures
        final(rs).deep_view() == adopted(old(rs).deep_view(), id@),
{
    match find(rs, id) {
        Some(i) => {
            let c = clean_committed_resp(at(rs, i).dup());
            set_at(rs, i, c);
        },
        None => {},
    }
}

fn adopt_in_plan(plan: &mut ScryModel, id: &str)
    ensures
        final(plan).deep_view() == claim_adopted(old(plan).deep_view(), id@),
{
    let i: usize = find_node_with_claim(&plan.nodes, id);
    if i < plan.nodes.len() {
        let mut n = at(&plan.nodes, i).dup();
        adopt_claim(&mut n.responsibilities, id);
        set_at(&mut plan.nodes, i, n);
    } else {
        let j: usize = find_group_with_claim(&plan.groups, id);
        if j < plan.groups.len() {
            let mut g = at(&plan.groups, j).dup();
            adopt_claim(&mut g.responsibilities, id);
            set_at(&mut plan.groups, j, g);
        }
    }
}

fn fold_claim(model: &mut ScryModel, plan: &mut ScryModel, id: &str) -> (r: Result<bool, String>)
    ensures
        done(
            r,
            claim_fold(old(model).deep_view(), old(plan).deep_view(), id@),
            final(model).deep_view(),
            final(plan).deep_view(),
            old(model).deep_view(),
            old(plan).deep_view(),
        ),
{
    let ghost m = model.deep_view();
    let ghost p = plan.deep_view();
    let mut ns = strip_nodes(&model.nodes, id);
    let mut gs = strip_groups(&model.groups, id);
    match find_responsibility(plan, id) {
        Some((host, r)) => {
            let c = clean_committed_resp(r);
            match find(&ns, host.as_str()) {
                Some(i) => {
                    let mut n = at(&ns, i).dup();
                    put(&mut n.responsibilities, c);
                    set_at(&mut ns, i, n);
                },
                None => match find(&gs, host.as_str()) {
                    Some(j) => {
                        let mut g = at(&gs, j).dup();
                        put(&mut g.responsibilities, c);
                        set_at(&mut gs, j, g);
                    },
                    None => {
                        return Err(
                            say(
                                "cannot commit responsibility '",
                                id,
                                "': its host '",
                                host.as_str(),
                                "' is not in the committed model yet (commit the host node/group first)",
                            ),
                        );
                    },
                },
            }
            model.nodes = ns;
            model.groups = gs;
            adopt_in_plan(plan, id);
            let own = just(id);
            move_in(&mut model.source_map, &mut plan.source_map, &own);
            move_in(&mut model.test_map, &mut plan.test_map, &own);
            proof {
                let l = claim_fold(m, p, id@)->Ok_0;
                assert(model.deep_view() =~= l.committed);
                assert(plan.deep_view() =~= l.planned);
            }
            Ok(false)
        },
        None => {
            model.nodes = ns;
            model.groups = gs;
            model.source_map.remove(id);
            model.test_map.remove(id);
            plan.nodes = strip_nodes(&plan.nodes, id);
            plan.groups = strip_groups(&plan.groups, id);
            Ok(true)
        },
    }
}

fn clean_property(p: &SchemaProperty) -> (r: SchemaProperty)
    ensures
        r.deep_view() == clean_prop(p.deep_view()),
{
    let mut c = p.dup();
    c.vagrant = None;
    c.stale = None;
    c
}

fn fold_property(
    model: &mut ScryModel,
    plan: &mut ScryModel,
    owner_id: Option<&str>,
    id: &str,
) -> (r: Result<bool, String>)
    ensures
        done(
            r,
            prop_fold(old(model).deep_view(), old(plan).deep_view(), ref_view(owner_id), id@),
            final(model).deep_view(),
            final(plan).deep_view(),
            old(model).deep_view(),
            old(plan).deep_view(),
        ),
{
    let ghost m = model.deep_view();
    let ghost p = plan.deep_view();
    match owner_id {
        None => Err("committing a property requires its owner node id".to_owned()),
        Some(o) => match find(&model.nodes, o) {
            None => Err(
                say("cannot commit property '", id, "': owner node '", o, "' not in the model"),
            ),
            Some(i) => {
                proof {
                    lemma_place_of::<Node>(p.nodes, o@);
                }
                let mut n = at(&model.nodes, i).dup();
                n.properties = except(&n.properties, id);
                match find(&plan.nodes, o) {
                    Some(k) => {
                        let mut pn = at(&plan.nodes, k).dup();
                        proof {
                            lemma_place_of::<SchemaProperty>(pn.deep_view().properties, id@);
                        }
                        match find(&pn.properties, id) {
                            Some(q) => {
                                let c = clean_property(at(&pn.properties, q));
                                put(&mut n.properties, c.dup());
                                set_at(&mut pn.properties, q, c);
                                set_at(&mut plan.nodes, k, pn);
                            },
                            None => {},
                        }
                    },
                    None => {},
                }
                set_at(&mut model.nodes, i, n);
                proof {
                    let l = prop_fold(m, p, ref_view(owner_id), id@)->Ok_0;
                    assert(model.deep_view() =~= l.committed);
                    assert(plan.deep_view() =~= l.planned);
                }
                Ok(false)
            },
        },
    }
}

/// Folds one planned element into the committed model: adds, updates, moves, or
/// deletes it there as the plan has it. The claims in `withhold` stay in the plan
/// when their host folds as a whole; a claim folded by its own id ignores the
/// list.
pub fn commit_element_withholding(
    committed: &mut ScryModel,
    planned: &mut ScryModel,
    kind: ElementKind,
    owner_id: Option<&str>,
    id: &str,
    withhold: &Vec<String>,
) -> (r: Result<Folded, String>)
    ensures
        match fold(
            old(committed).deep_view(),
            old(planned).deep_view(),
            kind,
            ref_view(owner_id),
            id@,
            withhold.deep_view(),
        ) {
            Ok(f) => {
                &&& r is Ok
                &&& final(committed).deep_view() == f.committed
                &&& final(planned).deep_view() == f.planned
                &&& r->Ok_0.closed.deep_view() == f.closed
                &&& r->Ok_0.rewrites_plan == f.rewrites
            },
            Err(e) => {
                &&& r is Err
                &&& r->Err_0@ == e
                &&& final(committed).deep_view() == old(committed).deep_view()
                &&& final(planned).deep_view() == old(planned).deep_view()
            },
        },
{
    let was = planned.dup();
    let step = match kind {
        ElementKind::Node => fold_node(committed, planned, id, withhold),
        ElementKind::Link => fold_link(committed, planned, id),
        ElementKind::Group => fold_group(committed, planned, id, withhold),
        ElementKind::Responsibility => fold_claim(committed, planned, id),
        ElementKind::Property => fold_property(committed, planned, owner_id, id),
    };
    match step {
        Err(e) => Err(e),
        Ok(purged) => {
            let swept = gc(committed, planned);
            let rewrites_plan = purged || !planned.same(&was);
            Ok(Folded { closed: swept.closed, rewrites_plan })
        },
    }
}

/// [`commit_element_withholding`] with nothing held back.
pub fn commit_element(
    committed: &mut ScryModel,
    planned: &mut ScryModel,
    kind: ElementKind,
    owner_id: Option<&str>,
    id: &str,
) -> (r: Result<Folded, String>)
    ensures
        match fold(
            old(committed).deep_view(),
            old(planned).deep_view(),
            kind,
            ref_view(owner_id),
            id@,
            Seq::empty(),
        ) {
            Ok(f) => {
                &&& r is Ok
                &&& final(committed).deep_view() == f.committed
                &&& final(planned).deep_view() == f.planned
                &&& r->Ok_0.closed.deep_view() == f.closed
                &&& r->Ok_0.rewrites_plan == f.rewrites
            },
            Err(e) => {
                &&& r is Err
                &&& r->Err_0@ == e
                &&& final(committed).deep_view() == old(committed).deep_view()
                &&& final(planned).deep_view() == old(planned).deep_view()
            },
        },
{
    let nothing: Vec<String> = fresh();
    commit_element_withholding(committed, planned, kind, owner_id, id, &nothing)
}

// ---- scaffolding ------------------------------------------------------------------

/// A node without what it claims or declares.
pub open spec fn structure(n: NodeView) -> NodeView {
    NodeView {
        vagrant: None,
        stale: None,
        responsibilities: Seq::empty(),
        properties: Seq::empty(),
        ..n
    }
}

fn structure_only_copy(n: &Node) -> (r: Node)
    ensures
        r.deep_view() == structure(n.deep_view()),
{
    let mut c = n.dup();
    c.vagrant = None;
    c.stale = None;
    c.responsibilities = fresh();
    c.properties = fresh();
    c
}

/// What is said of a node that is not in the plan.
pub open spec fn not_planned(id: Seq<char>) -> Seq<char> {
    "node '"@ + id + "' not found in the plan"@
}

/// What is said of a parent chain that closes on itself.
pub open spec fn chain_loops(id: Seq<char>, pid: Seq<char>) -> Seq<char> {
    "parent chain of '"@ + id + "' contains a cycle at '"@ + pid + "'"@
}

/// What is said of a parent that neither layer has.
pub open spec fn chain_dangles(id: Seq<char>, pid: Seq<char>) -> Seq<char> {
    "cannot commit ancestors of '"@ + id + "': parent '"@ + pid
        + "' exists in neither layer — fix the parent id before folding"@
}

/// The ancestors of `id` that only the plan has, from `at` upwards, nearest
/// first. The walk ends at the root or at a committed node; it fails where the
/// chain closes on itself or dangles.
pub open spec fn plan_only(
    ms: Seq<NodeView>,
    ps: Seq<NodeView>,
    id: Seq<char>,
    up: Option<Seq<char>>,
    seen: Seq<Seq<char>>,
) -> Result<Seq<Seq<char>>, Seq<char>>
    decreases unseen(ps, seen),
{
    match up {
        None => Ok(Seq::empty()),
        Some(pid) => if has_named::<Node>(ms, pid) {
            Ok(Seq::empty())
        } else if seen.contains(pid) {
            Err(chain_loops(id, pid))
        } else if !has_named::<Node>(ps, pid) {
            Err(chain_dangles(id, pid))
        } else {
            proof {
                assert(has_node(ps, pid));
                lemma_unseen_shrinks(ps, seen, pid);
            }
            match plan_only(ms, ps, id, ps[place_of::<Node>(ps, pid)].parent_id, seen.push(pid)) {
                Ok(rest) => Ok(seq![pid] + rest),
                Err(e) => Err(e),
            }
        },
    }
}

fn plan_only_chain(
    ms: &Vec<Node>,
    ps: &Vec<Node>,
    id: &str,
    start: &Option<String>,
) -> (r: Result<Vec<String>, String>)
    ensures
        match r {
            Ok(v) => plan_only(
                ms.deep_view(),
                ps.deep_view(),
                id@,
                start.deep_view(),
                seq![id@],
            ) == Ok::<Seq<Seq<char>>, Seq<char>>(v.deep_view()),
            Err(e) => plan_only(
                ms.deep_view(),
                ps.deep_view(),
                id@,
                start.deep_view(),
                seq![id@],
            ) == Err::<Seq<Seq<char>>, Seq<char>>(e@),
        },
{
    let ghost mv = ms.deep_view();
    let ghost pv = ps.deep_view();
    let ghost whole = plan_only(mv, pv, id@, start.deep_view(), seq![id@]);
    let mut seen = just(id);
    let mut out: Vec<String> = fresh();
    let mut cur: Option<String> = start.dup();
    proof {
        let rest = plan_only(mv, pv, id@, cur.deep_view(), seen.deep_view());
        if rest is Ok {
            assert(out.deep_view() + rest->Ok_0 =~= rest->Ok_0);
        }
    }
    loop
        invariant
            mv == ms.deep_view(),
            pv == ps.deep_view(),
            whole == plan_only(mv, pv, id@, start.deep_view(), seq![id@]),
            match plan_only(mv, pv, id@, cur.deep_view(), seen.deep_view()) {
                Ok(rest) => whole == Ok::<Seq<Seq<char>>, Seq<char>>(out.deep_view() + rest),
                Err(e) => whole == Err::<Seq<Seq<char>>, Seq<char>>(e),
            },
        ensures
            whole == Ok::<Seq<Seq<char>>, Seq<char>>(out.deep_view()),
        decreases unseen(pv, seen.deep_view()),
    {
        let ghost got = out.deep_view();
        let pid = match &cur {
            None => {
                assert(got + Seq::<Seq<char>>::empty() =~= got);
                break;
            },
            Some(pid) => pid.clone(),
        };
        if there(ms, pid.as_str()) {
            assert(got + Seq::<Seq<char>>::empty() =~= got);
            break;
        }
        if holds(&seen, pid.as_str()) {
            let mut s = cat3("parent chain of '", id, "' contains a cycle at '");
            s.append(pid.as_str());
            s.append("'");
            return Err(s);
        }
        match find(ps, pid.as_str()) {
            None => {
                return Err(
                    say(
                        "cannot commit ancestors of '",
                        id,
                        "': parent '",
                        pid.as_str(),
                        "' exists in neither layer — fix the parent id before folding",
                    ),
                );
            },
            Some(i) => {
                let ghost seen0 = seen.deep_view();
                proof {
                    assert(pv[i as int].id == pid@);
                    assert(has_node(pv, pid@));
                    lemma_unseen_shrinks(pv, seen0, pid@);
                }
                let next = at(ps, i).parent_id.dup();
                put(&mut seen, pid.clone());
                put(&mut out, pid);
                cur = next;
                proof {
                    match plan_only(mv, pv, id@, cur.deep_view(), seen.deep_view()) {
                        Ok(rest) => {
                            assert(got + (seq![pid@] + rest) =~= got.push(pid@) + rest);
                        },
                        Err(e) => {},
                    }
                }
            },
        }
    }
    Ok(out)
}

/// The ids to fold as structure, root first.
pub open spec fn to_scaffold(
    m: ScryModelView,
    p: ScryModelView,
    id: Seq<char>,
    include_self: bool,
) -> Result<Seq<Seq<char>>, Seq<char>> {
    match first::<Node>(p.nodes, id) {
        None => Err(not_planned(id)),
        Some(n) => match plan_only(m.nodes, p.nodes, id, n.parent_id, seq![id]) {
            Err(e) => Err(e),
            Ok(up) => Ok(
                if include_self && !has_named::<Node>(m.nodes, id) {
                    up.reverse().push(id)
                } else {
                    up.reverse()
                },
            ),
        },
    }
}

/// Committed with these planned nodes folded in as structure, one by one, each
/// with its declaration anchor and its boundary.
pub open spec fn scaffolded(
    m: ScryModelView,
    p: ScryModelView,
    ids: Seq<Seq<char>>,
) -> ScryModelView
    decreases ids.len(),
{
    if ids.len() == 0 {
        m
    } else {
        let before = scaffolded(m, p, ids.drop_last());
        let id = ids.last();
        ScryModelView {
            nodes: others::<Node>(before.nodes, id).push(
                structure(p.nodes[place_of::<Node>(p.nodes, id)]),
            ),
            source_map: moved_in(before.source_map, p.source_map, seq![id]),
            boundaries: moved_in(before.boundaries, p.boundaries, seq![id]),
            ..before
        }
    }
}

/// The plan's nodes with the marks of these nodes resolved.
pub open spec fn marks_resolved(ns: Seq<NodeView>, ids: Seq<Seq<char>>) -> Seq<NodeView>
    decreases ids.len(),
{
    if ids.len() == 0 {
        ns
    } else {
        let before = marks_resolved(ns, ids.drop_last());
        let i = place_of::<Node>(before, ids.last());
        if i < before.len() {
            before.update(i, NodeView { vagrant: None, stale: None, ..before[i] })
        } else {
            before
        }
    }
}

/// The plan after scaffolding, before the clean-up.
pub open spec fn plan_after_scaffold(p: ScryModelView, ids: Seq<Seq<char>>) -> ScryModelView {
    ScryModelView {
        nodes: marks_resolved(p.nodes, ids),
        source_map: p.source_map.remove_keys(ids.to_set()),
        boundaries: p.boundaries.remove_keys(ids.to_set()),
        ..p
    }
}

/// The scaffolding of the ancestors of a node, with the ledger cleaned up.
pub open spec fn scaffold(
    m: ScryModelView,
    p: ScryModelView,
    id: Seq<char>,
    include_self: bool,
) -> Result<(Seq<Seq<char>>, Fold), Seq<char>> {
    match to_scaffold(m, p, id, include_self) {
        Err(e) => Err(e),
        Ok(ids) => if ids.len() == 0 {
            Ok(
                (
                    ids,
                    Fold { committed: m, planned: p, closed: Seq::empty(), rewrites: false },
                ),
            )
        } else {
            let c = scaffolded(m, p, ids);
            let q = plan_after_scaffold(p, ids);
            let plan = cleaned(c, q);
            Ok(
                (
                    ids,
                    Fold {
                        committed: c,
                        planned: plan,
                        closed: closed_by_cleaning(c, q),
                        rewrites: plan != p,
                    },
                ),
            )
        },
    }
}

/// What a walk finds is in the plan, and not committed.
pub proof fn lemma_plan_only_planned(
    ms: Seq<NodeView>,
    ps: Seq<NodeView>,
    id: Seq<char>,
    up: Option<Seq<char>>,
    seen: Seq<Seq<char>>,
    r: Seq<Seq<char>>,
)
    requires
        plan_only(ms, ps, id, up, seen) == Ok::<Seq<Seq<char>>, Seq<char>>(r),
    ensures
        forall|i: int|
            0 <= i < r.len() ==> has_named::<Node>(ps, #[trigger] r[i]) && !has_named::<Node>(
                ms,
                r[i],
            ),
    decreases unseen(ps, seen),
{
    match up {
        None => {},
        Some(pid) => {
            if !has_named::<Node>(ms, pid) {
                assert(has_node(ps, pid));
                lemma_unseen_shrinks(ps, seen, pid);
                let next = ps[place_of::<Node>(ps, pid)].parent_id;
                let rest = plan_only(ms, ps, id, next, seen.push(pid))->Ok_0;
                lemma_plan_only_planned(ms, ps, id, next, seen.push(pid), rest);
                assert forall|i: int| 0 <= i < r.len() implies has_named::<Node>(
                    ps,
                    #[trigger] r[i],
                ) && !has_named::<Node>(ms, r[i]) by {
                    if i > 0 {
                        assert(r[i] == rest[i - 1]);
                    }
                }
            }
        },
    }
}

fn reversed(v: &Vec<String>) -> (r: Vec<String>)
    ensures
        r.deep_view() == v.deep_view().reverse(),
{
    let ghost rv = v.deep_view().reverse();
    let mut out: Vec<String> = fresh();
    let mut i: usize = v.len();
    assert(rv.take(0) =~= Seq::<Seq<char>>::empty());
    while i > 0
        invariant
            i <= v@.len(),
            rv == v.deep_view().reverse(),
            out.deep_view() == rv.take(v@.len() - i),
        decreases i,
    {
        i -= 1;
        put(&mut out, at(v, i).clone());
        assert(rv.take(v@.len() - i) =~= rv.take(v@.len() - i - 1).push(v.deep_view()[i as int]));
    }
    assert(rv.take(v@.len() as int) =~= rv);
    out
}

fn scaffold_nodes(
    committed: &mut ScryModel,
    planned: &mut ScryModel,
    ids: &Vec<String>,
)
    requires
        forall|i: int|
            0 <= i < ids.deep_view().len() ==> has_named::<Node>(
                old(planned).deep_view().nodes,
                #[trigger] ids.deep_view()[i],
            ),
    ensures
        final(committed).deep_view() == scaffolded(
            old(committed).deep_view(),
            old(planned).deep_view(),
            ids.deep_view(),
        ),
        final(planned).deep_view() == plan_after_scaffold(
            old(planned).deep_view(),
            ids.deep_view(),
        ),
{
    let ghost m = committed.deep_view();
    let ghost p = planned.deep_view();
    let ghost iv = ids.deep_view();
    let was = planned.dup();
    let mut i: usize = 0;
    assert(iv.take(0) =~= Seq::<Seq<char>>::empty());
    while i < ids.len()
        invariant
            i <= ids@.len(),
            iv == ids.deep_view(),
            p == was.deep_view(),
            forall|i: int| 0 <= i < iv.len() ==> has_named::<Node>(p.nodes, #[trigger] iv[i]),
            committed.deep_view() == scaffolded(m, p, iv.take(i as int)),
            planned.deep_view() == (ScryModelView {
                nodes: marks_resolved(p.nodes, iv.take(i as int)),
                ..p
            }),
        decreases ids@.len() - i,
    {
        let id = at(ids, i);
        assert(iv.take(i + 1).drop_last() =~= iv.take(i as int));
        let ghost before = committed.deep_view();
        assert(has_named::<Node>(p.nodes, iv[i as int]));
        match find(&was.nodes, id.as_str()) {
            Some(k) => {
                let mut nodes = except(&committed.nodes, id.as_str());
                put(&mut nodes, structure_only_copy(at(&was.nodes, k)));
                committed.nodes = nodes;
                let own = just(id.as_str());
                let mut anchors = was.source_map.dup();
                move_in(&mut committed.source_map, &mut anchors, &own);
                let mut globs = was.boundaries.dup();
                move_in(&mut committed.boundaries, &mut globs, &own);
                proof {
                    assert(committed.deep_view() =~= scaffolded(m, p, iv.take(i + 1)));
                }
            },
            None => {},
        }
        match find(&planned.nodes, id.as_str()) {
            Some(k) => {
                let mut n = at(&planned.nodes, k).dup();
                n.vagrant = None;
                n.stale = None;
                set_at(&mut planned.nodes, k, n);
            },
            None => {},
        }
        i += 1;
    }
    assert(iv.take(iv.len() as int) =~= iv);
    planned.source_map = planned.source_map.except(ids);
    planned.boundaries = planned.boundaries.except(ids);
    assert(planned.deep_view() =~= plan_after_scaffold(p, iv));
}

fn scaffold_ids(
    committed: &ScryModel,
    planned: &ScryModel,
    node_id: &str,
    include_self: bool,
) -> (r: Result<Vec<String>, String>)
    ensures
        match r {
            Ok(v) => {
                &&& to_scaffold(
                    committed.deep_view(),
                    planned.deep_view(),
                    node_id@,
                    include_self,
                ) == Ok::<Seq<Seq<char>>, Seq<char>>(v.deep_view())
                &&& forall|i: int|
                    0 <= i < v.deep_view().len() ==> has_named::<Node>(
                        planned.deep_view().nodes,
                        #[trigger] v.deep_view()[i],
                    )
            },
            Err(e) => to_scaffold(
                committed.deep_view(),
                planned.deep_view(),
                node_id@,
                include_self,
            ) == Err::<Seq<Seq<char>>, Seq<char>>(e@),
        },
{
    let ghost m = committed.deep_view();
    let ghost p = planned.deep_view();
    let i: usize = match find(&planned.nodes, node_id) {
        None => {
            return Err(cat3("node '", node_id, "' not found in the plan"));
        },
        Some(i) => i,
    };
    let start = at(&planned.nodes, i).parent_id.dup();
    let up = match plan_only_chain(&committed.nodes, &planned.nodes, node_id, &start) {
        Err(e) => {
            return Err(e);
        },
        Ok(v) => v,
    };
    let mut ids = reversed(&up);
    if include_self && !there(&committed.nodes, node_id) {
        put(&mut ids, node_id.to_owned());
    }
    proof {
        let iv = ids.deep_view();
        let uv = up.deep_view();
        lemma_plan_only_planned(m.nodes, p.nodes, node_id@, start.deep_view(), seq![node_id@], uv);
        assert forall|k: int| 0 <= k < iv.len() implies has_named::<Node>(
            p.nodes,
            #[trigger] iv[k],
        ) by {
            if k < uv.len() {
                assert(iv[k] == uv[uv.len() - 1 - k]);
            }
        }
    }
    Ok(ids)
}

/// Folds the plan-only ancestors of a node as structure, without their claims and
/// properties, so that a built leaf can fold in a model that was never committed;
/// with `include_self` the node too. Returns the folded ids, root first.
pub fn commit_plan_only_ancestors(
    committed: &mut ScryModel,
    planned: &mut ScryModel,
    node_id: &str,
    include_self: bool,
) -> (r: Result<(Vec<String>, Folded), String>)
    ensures
        match scaffold(
            old(committed).deep_view(),
            old(planned).deep_view(),
            node_id@,
            include_self,
        ) {
            Ok((ids, f)) => {
                &&& r is Ok
                &&& r->Ok_0.0.deep_view() == ids
                &&& final(committed).deep_view() == f.committed
                &&& final(planned).deep_view() == f.planned
                &&& r->Ok_0.1.closed.deep_view() == f.closed
                &&& r->Ok_0.1.rewrites_plan == f.rewrites
            },
            Err(e) => {
                &&& r is Err
                &&& r->Err_0@ == e
                &&& final(committed).deep_view() == old(committed).deep_view()
                &&& final(planned).deep_view() == old(planned).deep_view()
            },
        },
{
    let ghost m = committed.deep_view();
    let ghost p = planned.deep_view();
    let ids = match scaffold_ids(committed, planned, node_id, include_self) {
        Err(e) => {
            return Err(e);
        },
        Ok(v) => v,
    };
    if ids.len() == 0 {
        return Ok((ids, Folded { closed: fresh(), rewrites_plan: false }));
    }
    let was = planned.dup();
    scaffold_nodes(committed, planned, &ids);
    let swept = gc(committed, planned);
    let rewrites_plan = !planned.same(&was);
    Ok((ids, Folded { closed: swept.closed, rewrites_plan }))
}

// ---- what rides along -------------------------------------------------------------

/// The layers after several folds in a row, as far as they went.
pub struct Sweep {
    pub committed: ScryModelView,
    pub planned: ScryModelView,
    pub closed: Seq<ChangeMetaView>,
    pub rewrites: bool,
    pub failed: Option<Seq<char>>,
}

/// These elements of one kind folded in order, until one fails.
pub open spec fn swept(s: Sweep, kind: ElementKind, ids: Seq<Seq<char>>) -> Sweep
    decreases ids.len(),
{
    if ids.len() == 0 {
        s
    } else {
        let b = swept(s, kind, ids.drop_last());
        if b.failed is Some {
            b
        } else {
            match fold(b.committed, b.planned, kind, None, ids.last(), Seq::empty()) {
                Ok(f) => Sweep {
                    committed: f.committed,
                    planned: f.planned,
                    closed: b.closed + f.closed,
                    rewrites: b.rewrites || f.rewrites,
                    failed: None,
                },
                Err(e) => Sweep { failed: Some(e), ..b },
            }
        }
    }
}

/// Is the planned link touched by `id` and ready: are both its ends committed?
pub open spec fn link_ready(m: ScryModelView, l: LinkView, id: Seq<char>) -> bool {
    (l.src == id || l.dst == id) && has_named::<Node>(m.nodes, l.src) && has_named::<Node>(
        m.nodes,
        l.dst,
    )
}

/// Does the planned group hold `id`, and is it ready: are its members, its anchor
/// and its parent group committed?
pub open spec fn group_ready(m: ScryModelView, g: GroupView, id: Seq<char>) -> bool {
    &&& g.member_ids.contains(id)
    &&& first_absent(g.member_ids, m.nodes) is None
    &&& g.parent_node_id is Some ==> has_named::<Node>(m.nodes, g.parent_node_id->0)
    &&& g.parent_group_id is Some ==> has_named::<Group>(m.groups, g.parent_group_id->0)
}

/// The links among the plan entries that are ready, in order; deletions are not.
pub open spec fn ready_links(
    m: ScryModelView,
    p: ScryModelView,
    id: Seq<char>,
    d: Seq<ElementChangeView>,
) -> Seq<Seq<char>>
    decreases d.len(),
{
    if d.len() == 0 {
        Seq::empty()
    } else {
        let c = d.last();
        let rest = ready_links(m, p, id, d.drop_last());
        match first::<Link>(p.links, c.id) {
            Some(l) => if c.kind == ElementKind::Link && !deletes(c) && link_ready(m, l, id) {
                rest.push(l.id)
            } else {
                rest
            },
            None => rest,
        }
    }
}

/// The groups among the plan entries that are ready, in order; deletions are not.
pub open spec fn ready_groups(
    m: ScryModelView,
    p: ScryModelView,
    id: Seq<char>,
    d: Seq<ElementChangeView>,
) -> Seq<Seq<char>>
    decreases d.len(),
{
    if d.len() == 0 {
        Seq::empty()
    } else {
        let c = d.last();
        let rest = ready_groups(m, p, id, d.drop_last());
        match first::<Group>(p.groups, c.id) {
            Some(g) => if c.kind == ElementKind::Group && !deletes(c) && group_ready(m, g, id) {
                rest.push(g.id)
            } else {
                rest
            },
            None => rest,
        }
    }
}

/// What committing a node pulls in of the entries `d`: the links it touches and the
/// groups it completes.
pub open spec fn dependents_among(
    m: ScryModelView,
    p: ScryModelView,
    id: Seq<char>,
    d: Seq<ElementChangeView>,
) -> Sweep {
    let start = Sweep {
        committed: m,
        planned: p,
        closed: Seq::empty(),
        rewrites: false,
        failed: None,
    };
    if !has_named::<Node>(m.nodes, id) {
        start
    } else {
        let links = swept(start, ElementKind::Link, ready_links(m, p, id, d));
        if links.failed is Some {
            links
        } else {
            swept(links, ElementKind::Group, ready_groups(m, p, id, d))
        }
    }
}

/// What committing a node pulls in of the whole plan.
pub open spec fn dependents_in(m: ScryModelView, p: ScryModelView, id: Seq<char>) -> Sweep {
    dependents_among(m, p, id, diff_of(m, p))
}

fn links_to_fold(
    committed: &ScryModel,
    planned: &ScryModel,
    id: &str,
    d: &Vec<ElementChange>,
) -> (r: Vec<String>)
    ensures
        r.deep_view() == ready_links(
            committed.deep_view(),
            planned.deep_view(),
            id@,
            d.deep_view(),
        ),
{
    let ghost dv = d.deep_view();
    let mut out: Vec<String> = fresh();
    let mut i: usize = 0;
    assert(dv.take(0) =~= Seq::<ElementChangeView>::empty());
    while i < d.len()
        invariant
            i <= d@.len(),
            dv == d.deep_view(),
            out.deep_view() == ready_links(
                committed.deep_view(),
                planned.deep_view(),
                id@,
                dv.take(i as int),
            ),
        decreases d@.len() - i,
    {
        let c = at(d, i);
        assert(dv.take(i + 1).drop_last() =~= dv.take(i as int));
        if c.kind == ElementKind::Link && !is_deletion(c) {
            match find(&planned.links, c.id.as_str()) {
                Some(k) => {
                    let l = at(&planned.links, k);
                    if (same_text(l.src.as_str(), id) || same_text(l.dst.as_str(), id)) && there(
                        &committed.nodes,
                        l.src.as_str(),
                    ) && there(&committed.nodes, l.dst.as_str()) {
                        put(&mut out, l.id.clone());
                    }
                },
                None => {},
            }
        }
        i += 1;
    }
    assert(dv.take(dv.len() as int) =~= dv);
    out
}

fn is_group_ready(committed: &ScryModel, g: &Group, id: &str) -> (r: bool)
    ensures
        r == group_ready(committed.deep_view(), g.deep_view(), id@),
{
    let anchored = match &g.parent_node_id {
        Some(p) => there(&committed.nodes, p.as_str()),
        None => true,
    };
    let nested = match &g.parent_group_id {
        Some(p) => there(&committed.groups, p.as_str()),
        None => true,
    };
    holds(&g.member_ids, id) && absent_member(&g.member_ids, &committed.nodes).is_none() && anchored
        && nested
}

fn groups_to_fold(
    committed: &ScryModel,
    planned: &ScryModel,
    id: &str,
    d: &Vec<ElementChange>,
) -> (r: Vec<String>)
    ensures
        r.deep_view() == ready_groups(
            committed.deep_view(),
            planned.deep_view(),
            id@,
            d.deep_view(),
        ),
{
    let ghost dv = d.deep_view();
    let mut out: Vec<String> = fresh();
    let mut i: usize = 0;
    assert(dv.take(0) =~= Seq::<ElementChangeView>::empty());
    while i < d.len()
        invariant
            i <= d@.len(),
            dv == d.deep_view(),
            out.deep_view() == ready_groups(
                committed.deep_view(),
                planned.deep_view(),
                id@,
                dv.take(i as int),
            ),
        decreases d@.len() - i,
    {
        let c = at(d, i);
        assert(dv.take(i + 1).drop_last() =~= dv.take(i as int));
        if c.kind == ElementKind::Group && !is_deletion(c) {
            match find(&planned.groups, c.id.as_str()) {
                Some(k) => {
                    let g = at(&planned.groups, k);
                    if is_group_ready(committed, g, id) {
                        put(&mut out, g.id.clone());
                    }
                },
                None => {},
            }
        }
        i += 1;
    }
    assert(dv.take(dv.len() as int) =~= dv);
    out
}

fn append_changes(out: &mut Vec<ChangeMeta>, more: &Vec<ChangeMeta>)
    ensures
        final(out).deep_view() == old(out).deep_view() + more.deep_view(),
{
    let ghost mv = more.deep_view();
    let ghost start = out.deep_view();
    let mut i: usize = 0;
    assert(start + mv.take(0) =~= start);
    while i < more.len()
        invariant
            i <= more@.len(),
            mv == more.deep_view(),
            out.deep_view() == start + mv.take(i as int),
        decreases more@.len() - i,
    {
        put(out, at(more, i).dup());
        assert(start + mv.take(i + 1) =~= (start + mv.take(i as int)).push(mv[i as int]));
        i += 1;
    }
    assert(mv.take(mv.len() as int) =~= mv);
}

/// Is `out` with the layers the sweep `s`?
pub open spec fn is_sweep(
    s: Sweep,
    out: SweptView,
    committed: ScryModelView,
    planned: ScryModelView,
) -> bool {
    &&& s.committed == committed
    &&& s.planned == planned
    &&& s.closed == out.closed
    &&& s.rewrites == out.rewrites_plan
    &&& s.failed == out.failed
}

fn sweep(
    committed: &mut ScryModel,
    planned: &mut ScryModel,
    kind: ElementKind,
    ids: &Vec<String>,
    out: &mut Swept,
    Ghost(s): Ghost<Sweep>,
)
    requires
        is_sweep(
            s,
            old(out).deep_view(),
            old(committed).deep_view(),
            old(planned).deep_view(),
        ),
        s.failed is None,
    ensures
        is_sweep(
            swept(s, kind, ids.deep_view()),
            final(out).deep_view(),
            final(committed).deep_view(),
            final(planned).deep_view(),
        ),
{
    let ghost iv = ids.deep_view();
    let mut i: usize = 0;
    assert(iv.take(0) =~= Seq::<Seq<char>>::empty());
    while i < ids.len()
        invariant
            i <= ids@.len(),
            iv == ids.deep_view(),
            is_sweep(
                swept(s, kind, iv.take(i as int)),
                out.deep_view(),
                committed.deep_view(),
                planned.deep_view(),
            ),
        decreases ids@.len() - i,
    {
        let id = at(ids, i);
        assert(iv.take(i + 1).drop_last() =~= iv.take(i as int));
        if out.failed.is_none() {
            match commit_element(committed, planned, kind, None, id.as_str()) {
                Ok(f) => {
                    append_changes(&mut out.closed, &f.closed);
                    out.rewrites_plan = out.rewrites_plan || f.rewrites_plan;
                },
                Err(e) => {
                    out.failed = Some(e);
                },
            }
        }
        i += 1;
    }
    assert(iv.take(iv.len() as int) =~= iv);
}

/// [`commit_ready_dependents`] over the plan without what is set aside under the `binned`
/// element keys.
pub fn commit_ready_dependents_without(
    committed: &mut ScryModel,
    planned: &mut ScryModel,
    node_id: &str,
    binned: &Vec<String>,
) -> (r: Swept)
    ensures
        is_sweep(
            dependents_among(
                old(committed).deep_view(),
                old(planned).deep_view(),
                node_id@,
                not_binned(
                    diff_of(old(committed).deep_view(), old(planned).deep_view()),
                    binned.deep_view(),
                ),
            ),
            r.deep_view(),
            final(committed).deep_view(),
            final(planned).deep_view(),
        ),
{
    let ghost m = committed.deep_view();
    let ghost p = planned.deep_view();
    let mut out = Swept { closed: fresh(), rewrites_plan: false, failed: None };
    if !there(&committed.nodes, node_id) {
        return out;
    }
    let d = open_plan_without(committed, planned, binned).changes;
    let links = links_to_fold(committed, planned, node_id, &d);
    let groups = groups_to_fold(committed, planned, node_id, &d);
    let ghost start = Sweep {
        committed: m,
        planned: p,
        closed: Seq::empty(),
        rewrites: false,
        failed: None,
    };
    sweep(committed, planned, ElementKind::Link, &links, &mut out, Ghost(start));
    if out.failed.is_none() {
        let ghost mid = swept(start, ElementKind::Link, links.deep_view());
        sweep(committed, planned, ElementKind::Group, &groups, &mut out, Ghost(mid));
    }
    out
}

/// After a node was committed: folds the planned links that touch it and the
/// planned groups it completes, as far as everything they refer to is committed.
pub fn commit_ready_dependents(
    committed: &mut ScryModel,
    planned: &mut ScryModel,
    node_id: &str,
) -> (r: Swept)
    ensures
        is_sweep(
            dependents_in(old(committed).deep_view(), old(planned).deep_view(), node_id@),
            r.deep_view(),
            final(committed).deep_view(),
            final(planned).deep_view(),
        ),
{
    proof {
        law_nothing_binned(diff_of(committed.deep_view(), planned.deep_view()));
    }
    commit_ready_dependents_without(committed, planned, node_id, &fresh())
}

// ---- whole builds -----------------------------------------------------------------

/// The plan with the anchors, tests and boundaries of committed under its own.
pub open spec fn working(c: ScryModelView, p: ScryModelView) -> ScryModelView {
    ScryModelView {
        source_map: c.source_map.union_prefer_right(p.source_map),
        test_map: c.test_map.union_prefer_right(p.test_map),
        boundaries: c.boundaries.union_prefer_right(p.boundaries),
        ..p
    }
}

/// The working view: the plan wins, committed fills the gaps in the anchors, tests
/// and boundaries, which have a single home.
pub fn working_view(committed: &ScryModel, planned: &ScryModel) -> (r: ScryModel)
    ensures
        r.deep_view() == working(committed.deep_view(), planned.deep_view()),
{
    let mut r = planned.dup();
    r.source_map = committed.source_map.overlaid(&planned.source_map);
    r.test_map = committed.test_map.overlaid(&planned.test_map);
    r.boundaries = committed.boundaries.overlaid(&planned.boundaries);
    r
}

/// A finished build folded in.
#[derive(Debug, PartialEq)]
pub struct Built {
    /// The model that is committed now.
    pub committed: ScryModel,
    /// The plan seeded from it: nothing pending, no anchors of its own.
    pub planned: ScryModel,
    /// The changes that folded with the draft.
    pub closed: Vec<ChangeMeta>,
}

/// The model of a [`Built`].
#[verifier::ext_equal]
pub struct BuiltView {
    pub committed: ScryModelView,
    pub planned: ScryModelView,
    pub closed: Seq<ChangeMetaView>,
}

impl DeepView for Built {
    type V = BuiltView;

    open spec fn deep_view(&self) -> BuiltView {
        BuiltView {
            committed: self.committed.deep_view(),
            planned: self.planned.deep_view(),
            closed: self.closed.deep_view(),
        }
    }
}

impl Modelled for Built {
    fn dup(&self) -> (r: Self) {
        Built {
            committed: self.committed.dup(),
            planned: self.planned.dup(),
            closed: self.closed.dup(),
        }
    }

    fn same(&self, other: &Self) -> (r: bool) {
        self.committed.same(&other.committed)
            && self.planned.same(&other.planned)
            && self.closed.same(&other.closed)
    }
}

impl Clone for Built {
    fn clone(&self) -> (r: Self)
        ensures
            r.deep_view() == self.deep_view(),
    {
        self.dup()
    }
}

/// A finished build folded in: committed is the working view without change
/// state, and the plan is seeded from it without anchors.
pub open spec fn built_in(c: ScryModelView, built: ScryModelView) -> BuiltView {
    let folded = ScryModelView {
        changes: Seq::empty(),
        change_map: Map::empty(),
        ..working(c, built)
    };
    BuiltView {
        committed: folded,
        planned: ScryModelView {
            source_map: Map::empty(),
            test_map: Map::empty(),
            boundaries: Map::empty(),
            ..folded
        },
        closed: built.changes,
    }
}

/// Folds a finished build into the committed layer. The draft is merged over
/// committed, not put in its place: what only committed holds survives.
pub fn fold_built_model(committed: &ScryModel, built: &ScryModel) -> (r: Built)
    ensures
        r.deep_view() == built_in(committed.deep_view(), built.deep_view()),
{
    let mut folded = working_view(committed, built);
    let closed = folded.changes.dup();
    folded.changes = fresh();
    folded.change_map = StrMap::new();
    let mut seeded = folded.dup();
    seeded.source_map = StrMap::new();
    seeded.test_map = StrMap::new();
    seeded.boundaries = StrMap::new();
    Built { committed: folded, planned: seeded, closed }
}

} // verus!
