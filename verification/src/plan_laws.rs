//! What holds of every plan: it is made element by element, reads backwards, and names
//! each element once.

use crate::changes::{key, key_of, law_key_round_trip, parsed};
use crate::commit::{fold, prop_fold};
use crate::diff::{
    claim_index, collected, diff_of, flag_name, flattened, gone, group_anchor, group_changes,
    group_claims, group_index, inner, kept_or_new, kind_name, lemma_collected_from, link_changes,
    link_index, lookup, node_changes, node_claims, node_index, prop_diff, prop_index, resp_changes,
    reworded, with_claims, with_props, ChangeView, Compared, ElementChangeView, ElementKind,
    OwnedProp, OwnedPropView, OwnedResp, OwnedRespView,
};
use crate::fold_laws::{
    claimed_once, law_a_folded_claim_is_not_pending, law_a_folded_group_is_not_pending,
    law_a_folded_link_is_not_pending, law_a_folded_node_is_not_pending,
    law_a_folded_property_is_not_pending, lemma_prop_index_owned, names_differ,
};
use crate::ledger::{adds, deletes};
use crate::model::{
    directive_lines, Group, GroupView, Link, LinkView, Node, NodeView, ResponsibilityView,
    SchemaProperty, SchemaPropertyView, ScryModelView,
};
use crate::modelled::or_empty;
use crate::named::{has_named, lemma_place_of, place_of, Named};
use crate::revert_laws::{
    lemma_claims_tell, lemma_flattened_has, lemma_groups_tell, lemma_links_tell, lemma_nodes_tell,
    lemma_one_of, lemma_props_tell, lemma_sum_has, telling,
};
use crate::text::{ascending, ascends, joined, lemma_ascending_of, lemma_lex_irreflexive, lex_lt};
use vstd::prelude::*;

verus! {

// ---- the indexes are finite -------------------------------------------------------

proof fn lemma_node_index_finite(ns: Seq<NodeView>)
    ensures
        node_index(ns).dom().finite(),
    decreases ns.len(),
{
    if ns.len() > 0 {
        lemma_node_index_finite(ns.drop_last());
    }
}

proof fn lemma_link_index_finite(ls: Seq<LinkView>)
    ensures
        link_index(ls).dom().finite(),
    decreases ls.len(),
{
    if ls.len() > 0 {
        lemma_link_index_finite(ls.drop_last());
    }
}

proof fn lemma_group_index_finite(gs: Seq<GroupView>)
    ensures
        group_index(gs).dom().finite(),
    decreases gs.len(),
{
    if gs.len() > 0 {
        lemma_group_index_finite(gs.drop_last());
    }
}

proof fn lemma_with_claims_finite(
    m: Map<Seq<char>, OwnedRespView>,
    owner: Seq<char>,
    rs: Seq<ResponsibilityView>,
)
    requires
        m.dom().finite(),
    ensures
        with_claims(m, owner, rs).dom().finite(),
    decreases rs.len(),
{
    if rs.len() > 0 {
        lemma_with_claims_finite(m, owner, rs.drop_last());
    }
}

proof fn lemma_node_claims_finite(ns: Seq<NodeView>)
    ensures
        node_claims(ns).dom().finite(),
    decreases ns.len(),
{
    if ns.len() > 0 {
        lemma_node_claims_finite(ns.drop_last());
        lemma_with_claims_finite(
            node_claims(ns.drop_last()),
            ns.last().id,
            ns.last().responsibilities,
        );
    }
}

proof fn lemma_group_claims_finite(m: Map<Seq<char>, OwnedRespView>, gs: Seq<GroupView>)
    requires
        m.dom().finite(),
    ensures
        group_claims(m, gs).dom().finite(),
    decreases gs.len(),
{
    if gs.len() > 0 {
        lemma_group_claims_finite(m, gs.drop_last());
        lemma_with_claims_finite(
            group_claims(m, gs.drop_last()),
            gs.last().id,
            gs.last().responsibilities,
        );
    }
}

proof fn lemma_claim_index_finite(m: ScryModelView)
    ensures
        claim_index(m).dom().finite(),
{
    lemma_node_claims_finite(m.nodes);
    lemma_group_claims_finite(node_claims(m.nodes), m.groups);
}

proof fn lemma_with_props_finite(
    m: Map<Seq<char>, OwnedPropView>,
    owner: Seq<char>,
    ps: Seq<SchemaPropertyView>,
)
    requires
        m.dom().finite(),
    ensures
        with_props(m, owner, ps).dom().finite(),
    decreases ps.len(),
{
    if ps.len() > 0 {
        lemma_with_props_finite(m, owner, ps.drop_last());
    }
}

proof fn lemma_prop_index_finite(ns: Seq<NodeView>, k: Seq<char>)
    ensures
        prop_index(ns).dom().finite(),
        inner(prop_index(ns), k).dom().finite(),
    decreases ns.len(),
{
    if ns.len() > 0 {
        lemma_prop_index_finite(ns.drop_last(), k);
        if ns.last().id == k {
            lemma_with_props_finite(
                inner(prop_index(ns.drop_last()), k),
                k,
                ns.last().properties,
            );
        }
    }
}

// ---- element by element -----------------------------------------------------------

proof fn lemma_collected_has(s: Seq<Option<ElementChangeView>>, i: int)
    requires
        0 <= i < s.len(),
        s[i] is Some,
    ensures
        collected(s).contains(s[i]->0),
    decreases s.len(),
{
    let d = s.drop_last();
    let all = collected(s);
    if i == s.len() - 1 {
        assert(all[collected(d).len() as int] == s[i]->0);
    } else {
        assert(d[i] == s[i]);
        lemma_collected_has(d, i);
        let k = choose|k: int| 0 <= k < collected(d).len() && collected(d)[k] == s[i]->0;
        assert(all[k] == s[i]->0);
    }
}

/// What the comparison of one kind of element says of an element.
spec fn told<T: Compared>(
    f: Map<Seq<char>, T::V>,
    t: Map<Seq<char>, T::V>,
    id: Seq<char>,
) -> Option<ElementChangeView> {
    T::change_of(id, lookup(f, id), lookup(t, id))
}

/// Is nothing said of what is nowhere?
spec fn silent<T: Compared>() -> bool {
    forall|k: Seq<char>| #[trigger] T::change_of(k, None, None) is None
}

proof fn lemma_walk_told<T: Compared>(
    f: Map<Seq<char>, T::V>,
    t: Map<Seq<char>, T::V>,
    kind: ElementKind,
    ch: ElementChangeView,
)
    requires
        telling::<T>(kind),
        silent::<T>(),
        f.dom().finite(),
        t.dom().finite(),
    ensures
        kept_or_new::<T>(f, t).contains(ch) <==> told::<T>(f, t, ch.id) == Some(ch)
            && t.contains_key(ch.id),
        gone::<T>(f, t).contains(ch) <==> told::<T>(f, t, ch.id) == Some(ch) && !t.contains_key(
            ch.id,
        ),
{
    lemma_ascending_of(f.dom());
    lemma_ascending_of(t.dom());
    let tk = ascending(t.dom());
    let a = Seq::new(
        tk.len(),
        |i: int| T::change_of(tk[i], lookup(f, tk[i]), lookup(t, tk[i])),
    );
    let fk = ascending(f.dom());
    let b = Seq::new(
        fk.len(),
        |i: int|
            if t.contains_key(fk[i]) {
                None
            } else {
                T::change_of(fk[i], lookup(f, fk[i]), None)
            },
    );
    if kept_or_new::<T>(f, t).contains(ch) {
        let i = choose|i: int| 0 <= i < collected(a).len() && collected(a)[i] == ch;
        let j = lemma_collected_from(a, i);
        assert(T::change_of(tk[j], lookup(f, tk[j]), lookup(t, tk[j])) == Some(ch));
        assert(tk.to_set().contains(tk[j]));
    }
    if gone::<T>(f, t).contains(ch) {
        let i = choose|i: int| 0 <= i < collected(b).len() && collected(b)[i] == ch;
        let j = lemma_collected_from(b, i);
        assert(T::change_of(fk[j], lookup(f, fk[j]), None) == Some(ch));
    }
    if told::<T>(f, t, ch.id) == Some(ch) {
        if t.contains_key(ch.id) {
            assert(tk.to_set().contains(ch.id));
            let j = choose|j: int| 0 <= j < tk.len() && tk[j] == ch.id;
            assert(a[j] == Some(ch));
            lemma_collected_has(a, j);
        } else {
            assert(lookup(t, ch.id) is None);
            if !f.contains_key(ch.id) {
                assert(T::change_of(ch.id, None, None) is None);
            }
            assert(fk.to_set().contains(ch.id));
            let j = choose|j: int| 0 <= j < fk.len() && fk[j] == ch.id;
            assert(b[j] == Some(ch));
            lemma_collected_has(b, j);
        }
    }
}

/// What a plan says of one element: the difference between its two versions.
pub open spec fn said_of(
    a: ScryModelView,
    b: ScryModelView,
    kind: ElementKind,
    owner: Option<Seq<char>>,
    id: Seq<char>,
) -> Option<ElementChangeView> {
    match kind {
        ElementKind::Node => Node::change_of(
            id,
            lookup(node_index(a.nodes), id),
            lookup(node_index(b.nodes), id),
        ),
        ElementKind::Link => Link::change_of(
            id,
            lookup(link_index(a.links), id),
            lookup(link_index(b.links), id),
        ),
        ElementKind::Responsibility => OwnedResp::change_of(
            id,
            lookup(claim_index(a), id),
            lookup(claim_index(b), id),
        ),
        ElementKind::Group => Group::change_of(
            id,
            lookup(group_index(a.groups), id),
            lookup(group_index(b.groups), id),
        ),
        ElementKind::Property => match owner {
            Some(o) => OwnedProp::change_of(
                id,
                lookup(inner(prop_index(a.nodes), o), id),
                lookup(inner(prop_index(b.nodes), o), id),
            ),
            None => None,
        },
    }
}

proof fn lemma_flattened_contains(s: Seq<Seq<ElementChangeView>>, k: int, ch: ElementChangeView)
    requires
        0 <= k < s.len(),
        s[k].contains(ch),
    ensures
        flattened(s).contains(ch),
    decreases s.len(),
{
    let d = flattened(s.drop_last());
    let all = flattened(s);
    if k == s.len() - 1 {
        let i = choose|i: int| 0 <= i < s.last().len() && s.last()[i] == ch;
        assert(all[d.len() + i] == ch);
    } else {
        assert(s.drop_last()[k] == s[k]);
        lemma_flattened_contains(s.drop_last(), k, ch);
        let i = choose|i: int| 0 <= i < d.len() && d[i] == ch;
        assert(all[i] == ch);
    }
}

proof fn lemma_owner_told(f: Seq<NodeView>, t: Seq<NodeView>, o: Seq<char>, id: Seq<char>)
    ensures
        told::<OwnedProp>(inner(prop_index(f), o), inner(prop_index(t), o), id) is Some
            ==> told::<OwnedProp>(inner(prop_index(f), o), inner(prop_index(t), o), id)->0.owner_id
            == Some(o),
{
    lemma_prop_index_owned(f, o);
    lemma_prop_index_owned(t, o);
}

proof fn lemma_props_said(f: Seq<NodeView>, t: Seq<NodeView>, ch: ElementChangeView)
    ensures
        prop_diff(prop_index(f), prop_index(t)).contains(ch) <==> ch.kind == ElementKind::Property
            && ch.owner_id is Some && told::<OwnedProp>(
            inner(prop_index(f), ch.owner_id->0),
            inner(prop_index(t), ch.owner_id->0),
            ch.id,
        ) == Some(ch),
{
    let fm = prop_index(f);
    let tm = prop_index(t);
    lemma_props_tell();
    assert(silent::<OwnedProp>());
    let o = ch.owner_id->0;
    lemma_prop_index_finite(f, o);
    lemma_prop_index_finite(t, o);
    lemma_ascending_of(fm.dom());
    lemma_ascending_of(tm.dom());
    let tk = ascending(tm.dom());
    let fk = ascending(fm.dom());
    let a = Seq::new(
        tk.len(),
        |i: int| kept_or_new::<OwnedProp>(inner(fm, tk[i]), inner(tm, tk[i])),
    );
    let b = Seq::new(fk.len(), |i: int| gone::<OwnedProp>(inner(fm, fk[i]), inner(tm, fk[i])));
    let d = prop_diff(fm, tm);
    assert(d == flattened(a) + flattened(b));
    if d.contains(ch) {
        let i = choose|i: int| 0 <= i < d.len() && d[i] == ch;
        if i < flattened(a).len() {
            assert(flattened(a)[i] == ch);
            let k = lemma_flattened_has(a, ch);
            lemma_prop_index_finite(f, tk[k]);
            lemma_prop_index_finite(t, tk[k]);
            lemma_walk_told::<OwnedProp>(
                inner(fm, tk[k]),
                inner(tm, tk[k]),
                ElementKind::Property,
                ch,
            );
            lemma_owner_told(f, t, tk[k], ch.id);
        } else {
            assert(flattened(b)[i - flattened(a).len()] == ch);
            let k = lemma_flattened_has(b, ch);
            lemma_prop_index_finite(f, fk[k]);
            lemma_prop_index_finite(t, fk[k]);
            lemma_walk_told::<OwnedProp>(
                inner(fm, fk[k]),
                inner(tm, fk[k]),
                ElementKind::Property,
                ch,
            );
            lemma_owner_told(f, t, fk[k], ch.id);
        }
    }
    if ch.kind == ElementKind::Property && ch.owner_id is Some && told::<OwnedProp>(
        inner(fm, o),
        inner(tm, o),
        ch.id,
    ) == Some(ch) {
        lemma_walk_told::<OwnedProp>(inner(fm, o), inner(tm, o), ElementKind::Property, ch);
        if inner(tm, o).contains_key(ch.id) {
            assert(tk.to_set().contains(o));
            let k = choose|k: int| 0 <= k < tk.len() && tk[k] == o;
            assert(a[k].contains(ch));
            lemma_flattened_contains(a, k, ch);
            let i = choose|i: int| 0 <= i < flattened(a).len() && flattened(a)[i] == ch;
            assert(d[i] == ch);
        } else {
            if !inner(fm, o).contains_key(ch.id) {
                assert(OwnedProp::change_of(ch.id, None, None) is None);
            }
            assert(fk.to_set().contains(o));
            let k = choose|k: int| 0 <= k < fk.len() && fk[k] == o;
            assert(b[k].contains(ch));
            lemma_flattened_contains(b, k, ch);
            let i = choose|i: int| 0 <= i < flattened(b).len() && flattened(b)[i] == ch;
            assert(d[flattened(a).len() + i] == ch);
        }
    }
}

proof fn lemma_sum_contains(
    a: Seq<ElementChangeView>,
    b: Seq<ElementChangeView>,
    ch: ElementChangeView,
)
    ensures
        a.contains(ch) || b.contains(ch) ==> (a + b).contains(ch),
{
    let s = a + b;
    if a.contains(ch) {
        let i = choose|i: int| 0 <= i < a.len() && a[i] == ch;
        assert(s[i] == ch);
    }
    if b.contains(ch) {
        let i = choose|i: int| 0 <= i < b.len() && b[i] == ch;
        assert(s[a.len() + i] == ch);
    }
}

proof fn lemma_any_of(a: ScryModelView, b: ScryModelView, ch: ElementChangeView)
    ensures
        kept_or_new::<Node>(node_index(a.nodes), node_index(b.nodes)).contains(ch) || gone::<Node>(
            node_index(a.nodes),
            node_index(b.nodes),
        ).contains(ch) || kept_or_new::<Link>(link_index(a.links), link_index(b.links)).contains(ch)
            || gone::<Link>(link_index(a.links), link_index(b.links)).contains(ch)
            || kept_or_new::<OwnedResp>(claim_index(a), claim_index(b)).contains(ch) || gone::<
            OwnedResp,
        >(claim_index(a), claim_index(b)).contains(ch) || prop_diff(
            prop_index(a.nodes),
            prop_index(b.nodes),
        ).contains(ch) || kept_or_new::<Group>(
            group_index(a.groups),
            group_index(b.groups),
        ).contains(ch) || gone::<Group>(group_index(a.groups), group_index(b.groups)).contains(ch)
            ==> diff_of(a, b).contains(ch),
{
    let s1 = kept_or_new::<Node>(node_index(a.nodes), node_index(b.nodes));
    let s2 = gone::<Node>(node_index(a.nodes), node_index(b.nodes));
    let s3 = kept_or_new::<Link>(link_index(a.links), link_index(b.links));
    let s4 = gone::<Link>(link_index(a.links), link_index(b.links));
    let s5 = kept_or_new::<OwnedResp>(claim_index(a), claim_index(b));
    let s6 = gone::<OwnedResp>(claim_index(a), claim_index(b));
    let s7 = prop_diff(prop_index(a.nodes), prop_index(b.nodes));
    let s8 = kept_or_new::<Group>(group_index(a.groups), group_index(b.groups));
    let s9 = gone::<Group>(group_index(a.groups), group_index(b.groups));
    let t2 = s1 + s2;
    let t3 = t2 + s3;
    let t4 = t3 + s4;
    let t5 = t4 + s5;
    let t6 = t5 + s6;
    let t7 = t6 + s7;
    let t8 = t7 + s8;
    assert(diff_of(a, b) == t8 + s9);
    lemma_sum_contains(s1, s2, ch);
    lemma_sum_contains(t2, s3, ch);
    lemma_sum_contains(t3, s4, ch);
    lemma_sum_contains(t4, s5, ch);
    lemma_sum_contains(t5, s6, ch);
    lemma_sum_contains(t6, s7, ch);
    lemma_sum_contains(t7, s8, ch);
    lemma_sum_contains(t8, s9, ch);
}

/// A plan is made element by element: it holds an entry exactly where that is the
/// difference between the two versions of the entry's element.
pub proof fn law_a_plan_is_made_element_by_element(
    a: ScryModelView,
    b: ScryModelView,
    ch: ElementChangeView,
)
    ensures
        diff_of(a, b).contains(ch) <==> said_of(a, b, ch.kind, ch.owner_id, ch.id) == Some(ch),
{
    lemma_nodes_tell();
    lemma_links_tell();
    lemma_claims_tell();
    lemma_groups_tell();
    lemma_props_tell();
    lemma_node_index_finite(a.nodes);
    lemma_node_index_finite(b.nodes);
    lemma_link_index_finite(a.links);
    lemma_link_index_finite(b.links);
    lemma_claim_index_finite(a);
    lemma_claim_index_finite(b);
    lemma_group_index_finite(a.groups);
    lemma_group_index_finite(b.groups);
    assert(silent::<Node>());
    assert(silent::<Link>());
    assert(silent::<OwnedResp>());
    assert(silent::<Group>());
    lemma_walk_told::<Node>(node_index(a.nodes), node_index(b.nodes), ElementKind::Node, ch);
    lemma_walk_told::<Link>(link_index(a.links), link_index(b.links), ElementKind::Link, ch);
    lemma_walk_told::<OwnedResp>(
        claim_index(a),
        claim_index(b),
        ElementKind::Responsibility,
        ch,
    );
    lemma_walk_told::<Group>(group_index(a.groups), group_index(b.groups), ElementKind::Group, ch);
    lemma_props_said(a.nodes, b.nodes, ch);
    lemma_any_of(a, b, ch);
    if diff_of(a, b).contains(ch) {
        lemma_one_of(a, b, ch);
        assert(told::<Node>(node_index(a.nodes), node_index(b.nodes), ch.id) == Some(ch) ==> ch.kind
            == ElementKind::Node);
        assert(told::<Link>(link_index(a.links), link_index(b.links), ch.id) == Some(ch) ==> ch.kind
            == ElementKind::Link);
        assert(told::<OwnedResp>(claim_index(a), claim_index(b), ch.id) == Some(ch) ==> ch.kind
            == ElementKind::Responsibility);
        assert(told::<Group>(group_index(a.groups), group_index(b.groups), ch.id) == Some(ch)
            ==> ch.kind == ElementKind::Group);
    }
}

// ---- backwards --------------------------------------------------------------------

/// A change read backwards.
pub open spec fn mirrored(c: ChangeView) -> ChangeView {
    match c {
        ChangeView::Added => ChangeView::Deleted,
        ChangeView::Deleted => ChangeView::Added,
        ChangeView::Moved { from, to } => ChangeView::Moved { from: to, to: from },
        ChangeView::Repointed { src_from, src_to, dst_from, dst_to } => ChangeView::Repointed {
            src_from: src_to,
            src_to: src_from,
            dst_from: dst_to,
            dst_to: dst_from,
        },
        ChangeView::Reworded { field, from, to } => ChangeView::Reworded {
            field,
            from: to,
            to: from,
        },
        ChangeView::MembersChanged { added, removed } => ChangeView::MembersChanged {
            added: removed,
            removed: added,
        },
    }
}

/// Changes read backwards, in the same order.
pub open spec fn all_mirrored(cs: Seq<ChangeView>) -> Seq<ChangeView> {
    Seq::new(cs.len(), |i: int| mirrored(cs[i]))
}

proof fn lemma_reworded_mirrored(
    cs: Seq<ChangeView>,
    field: Seq<char>,
    from: Seq<char>,
    to: Seq<char>,
)
    ensures
        all_mirrored(reworded(cs, field, from, to)) == reworded(
            all_mirrored(cs),
            field,
            to,
            from,
        ),
{
    assert(all_mirrored(reworded(cs, field, from, to)) =~= reworded(
        all_mirrored(cs),
        field,
        to,
        from,
    ));
}

/// Does an entry say the reverse of another, of the same element?
pub open spec fn reverse(x: Option<ElementChangeView>, y: Option<ElementChangeView>) -> bool {
    match (x, y) {
        (Some(a), Some(b)) => a.kind == b.kind && a.id == b.id && b.changes == all_mirrored(
            a.changes,
        ),
        (None, None) => true,
        _ => false,
    }
}

proof fn lemma_ends_mirrored()
    ensures
        all_mirrored(seq![ChangeView::Added]) == seq![ChangeView::Deleted],
        all_mirrored(seq![ChangeView::Deleted]) == seq![ChangeView::Added],
{
    assert(all_mirrored(seq![ChangeView::Added]) =~= seq![ChangeView::Deleted]);
    assert(all_mirrored(seq![ChangeView::Deleted]) =~= seq![ChangeView::Added]);
}

proof fn lemma_node_mirrored(p: NodeView, n: NodeView)
    ensures
        node_changes(n, p) == all_mirrored(node_changes(p, n)),
{
    let c0: Seq<ChangeView> = if p.parent_id != n.parent_id {
        seq![ChangeView::Moved { from: p.parent_id, to: n.parent_id }]
    } else {
        Seq::empty()
    };
    let d0: Seq<ChangeView> = if n.parent_id != p.parent_id {
        seq![ChangeView::Moved { from: n.parent_id, to: p.parent_id }]
    } else {
        Seq::empty()
    };
    assert(all_mirrored(c0) =~= d0);
    let c1 = reworded(c0, "name"@, p.name, n.name);
    lemma_reworded_mirrored(c0, "name"@, p.name, n.name);
    let c2 = reworded(c1, "technology"@, or_empty(p.technology), or_empty(n.technology));
    lemma_reworded_mirrored(c1, "technology"@, or_empty(p.technology), or_empty(n.technology));
    let c3 = reworded(c2, "description"@, or_empty(p.description), or_empty(n.description));
    lemma_reworded_mirrored(c2, "description"@, or_empty(p.description), or_empty(n.description));
    let c4 = reworded(
        c3,
        "directives"@,
        directive_lines(p.directives),
        directive_lines(n.directives),
    );
    lemma_reworded_mirrored(
        c3,
        "directives"@,
        directive_lines(p.directives),
        directive_lines(n.directives),
    );
    let c5 = reworded(c4, "kind"@, kind_name(p.kind), kind_name(n.kind));
    lemma_reworded_mirrored(c4, "kind"@, kind_name(p.kind), kind_name(n.kind));
    lemma_reworded_mirrored(c5, "external"@, flag_name(p.external), flag_name(n.external));
}

proof fn lemma_link_mirrored(p: LinkView, l: LinkView)
    ensures
        link_changes(l, p) == all_mirrored(link_changes(p, l)),
{
    let c0: Seq<ChangeView> = if p.src != l.src || p.dst != l.dst {
        seq![
            ChangeView::Repointed {
                src_from: p.src,
                src_to: l.src,
                dst_from: p.dst,
                dst_to: l.dst,
            },
        ]
    } else {
        Seq::empty()
    };
    let d0: Seq<ChangeView> = if l.src != p.src || l.dst != p.dst {
        seq![
            ChangeView::Repointed {
                src_from: l.src,
                src_to: p.src,
                dst_from: l.dst,
                dst_to: p.dst,
            },
        ]
    } else {
        Seq::empty()
    };
    assert(all_mirrored(c0) =~= d0);
    let c1 = reworded(c0, "label"@, p.label, l.label);
    lemma_reworded_mirrored(c0, "label"@, p.label, l.label);
    lemma_reworded_mirrored(c1, "method"@, or_empty(p.method), or_empty(l.method));
}

proof fn lemma_claim_mirrored(p: OwnedRespView, r: OwnedRespView)
    ensures
        resp_changes(r, p) == all_mirrored(resp_changes(p, r)),
{
    let c0: Seq<ChangeView> = if p.owner_id != r.owner_id {
        seq![ChangeView::Moved { from: Some(p.owner_id), to: Some(r.owner_id) }]
    } else {
        Seq::empty()
    };
    let d0: Seq<ChangeView> = if r.owner_id != p.owner_id {
        seq![ChangeView::Moved { from: Some(r.owner_id), to: Some(p.owner_id) }]
    } else {
        Seq::empty()
    };
    assert(all_mirrored(c0) =~= d0);
    let c1 = reworded(c0, "title"@, or_empty(p.resp.title), or_empty(r.resp.title));
    lemma_reworded_mirrored(c0, "title"@, or_empty(p.resp.title), or_empty(r.resp.title));
    let c2 = reworded(c1, "statement"@, p.resp.statement, r.resp.statement);
    lemma_reworded_mirrored(c1, "statement"@, p.resp.statement, r.resp.statement);
    let c3 = reworded(
        c2,
        "directives"@,
        directive_lines(p.resp.directives),
        directive_lines(r.resp.directives),
    );
    lemma_reworded_mirrored(
        c2,
        "directives"@,
        directive_lines(p.resp.directives),
        directive_lines(r.resp.directives),
    );
    lemma_reworded_mirrored(
        c3,
        "cites"@,
        joined(p.resp.cites, ", "@),
        joined(r.resp.cites, ", "@),
    );
}

proof fn lemma_group_mirrored(p: GroupView, g: GroupView)
    ensures
        group_changes(g, p) == all_mirrored(group_changes(p, g)),
{
    let c0: Seq<ChangeView> = if group_anchor(p) != group_anchor(g) {
        seq![ChangeView::Moved { from: group_anchor(p), to: group_anchor(g) }]
    } else {
        Seq::empty()
    };
    let d0: Seq<ChangeView> = if group_anchor(g) != group_anchor(p) {
        seq![ChangeView::Moved { from: group_anchor(g), to: group_anchor(p) }]
    } else {
        Seq::empty()
    };
    assert(all_mirrored(c0) =~= d0);
    let c1 = reworded(c0, "name"@, p.name, g.name);
    lemma_reworded_mirrored(c0, "name"@, p.name, g.name);
    let c2 = reworded(c1, "description"@, or_empty(p.description), or_empty(g.description));
    lemma_reworded_mirrored(c1, "description"@, or_empty(p.description), or_empty(g.description));
    assert(group_changes(g, p) =~= all_mirrored(group_changes(p, g)));
}

/// What a plan says of an element, the plan the other way round says backwards.
pub proof fn law_a_plan_reads_backwards(
    a: ScryModelView,
    b: ScryModelView,
    kind: ElementKind,
    owner: Option<Seq<char>>,
    id: Seq<char>,
)
    ensures
        reverse(said_of(a, b, kind, owner, id), said_of(b, a, kind, owner, id)),
{
    lemma_ends_mirrored();
    match kind {
        ElementKind::Node => {
            let x = lookup(node_index(a.nodes), id);
            let y = lookup(node_index(b.nodes), id);
            if x is Some && y is Some {
                lemma_node_mirrored(x->0, y->0);
            }
        },
        ElementKind::Link => {
            let x = lookup(link_index(a.links), id);
            let y = lookup(link_index(b.links), id);
            if x is Some && y is Some {
                lemma_link_mirrored(x->0, y->0);
            }
        },
        ElementKind::Responsibility => {
            let x = lookup(claim_index(a), id);
            let y = lookup(claim_index(b), id);
            if x is Some && y is Some {
                lemma_claim_mirrored(x->0, y->0);
            }
        },
        ElementKind::Group => {
            let x = lookup(group_index(a.groups), id);
            let y = lookup(group_index(b.groups), id);
            if x is Some && y is Some {
                lemma_group_mirrored(x->0, y->0);
            }
        },
        ElementKind::Property => {
            if owner is Some {
                let x = lookup(inner(prop_index(a.nodes), owner->0), id);
                let y = lookup(inner(prop_index(b.nodes), owner->0), id);
                if x is Some && y is Some {
                    let none = Seq::<ChangeView>::empty();
                    assert(all_mirrored(none) =~= none);
                    lemma_reworded_mirrored(
                        none,
                        "description"@,
                        x->0.prop.description,
                        y->0.prop.description,
                    );
                }
            }
        },
    }
}

/// The key of a claim, a node, a link or a group does not depend on its host.
proof fn lemma_key_of_kind(kind: ElementKind, a: Option<Seq<char>>, b: Option<Seq<char>>, id: Seq<char>)
    requires
        kind == ElementKind::Property ==> a == b,
    ensures
        key(kind, a, id) == key(kind, b, id),
{
}

/// Every entry of a plan has its counterpart in the plan the other way round: under the
/// same key, with each change read backwards. What one adds the other deletes.
pub proof fn law_every_entry_has_its_counterpart(
    a: ScryModelView,
    b: ScryModelView,
    ch: ElementChangeView,
) -> (back: ElementChangeView)
    requires
        diff_of(a, b).contains(ch),
    ensures
        diff_of(b, a).contains(back),
        key_of(back) == key_of(ch),
        back.kind == ch.kind,
        back.id == ch.id,
        back.changes == all_mirrored(ch.changes),
        adds(ch) <==> deletes(back),
        deletes(ch) <==> adds(back),
{
    law_a_plan_is_made_element_by_element(a, b, ch);
    law_a_plan_reads_backwards(a, b, ch.kind, ch.owner_id, ch.id);
    let back = said_of(b, a, ch.kind, ch.owner_id, ch.id)->0;
    if ch.kind == ElementKind::Property {
        lemma_owner_told(b.nodes, a.nodes, ch.owner_id->0, ch.id);
    }
    assert(said_of(b, a, ch.kind, back.owner_id, ch.id) == said_of(
        b,
        a,
        ch.kind,
        ch.owner_id,
        ch.id,
    ));
    law_a_plan_is_made_element_by_element(b, a, back);
    lemma_key_of_kind(ch.kind, ch.owner_id, back.owner_id, ch.id);
    lemma_has_mirrored(ch.changes, ChangeView::Added);
    lemma_has_mirrored(ch.changes, ChangeView::Deleted);
    back
}

proof fn lemma_has_mirrored(cs: Seq<ChangeView>, c: ChangeView)
    ensures
        cs.contains(c) <==> all_mirrored(cs).contains(mirrored(c)),
{
    let ms = all_mirrored(cs);
    if cs.contains(c) {
        let i = choose|i: int| 0 <= i < cs.len() && cs[i] == c;
        assert(ms[i] == mirrored(c));
    }
    if ms.contains(mirrored(c)) {
        let i = choose|i: int| 0 <= i < ms.len() && ms[i] == mirrored(c);
        assert(mirrored(cs[i]) == mirrored(c));
        assert(mirrored(mirrored(cs[i])) == cs[i]);
        assert(mirrored(mirrored(c)) == c);
        assert(cs[i] == c);
    }
}

// ---- each element once ------------------------------------------------------------

/// Are two entries about the same element?
pub open spec fn same_element(x: ElementChangeView, y: ElementChangeView) -> bool {
    x.kind == y.kind && x.id == y.id && (x.kind == ElementKind::Property ==> x.owner_id
        == y.owner_id)
}

/// Is every entry about an element of its own?
pub open spec fn apart(d: Seq<ElementChangeView>) -> bool {
    forall|i: int, j: int|
        0 <= i < d.len() && 0 <= j < d.len() && i != j ==> !same_element(
            #[trigger] d[i],
            #[trigger] d[j],
        )
}

proof fn lemma_apart_sum(a: Seq<ElementChangeView>, b: Seq<ElementChangeView>)
    requires
        apart(a),
        apart(b),
        forall|x: ElementChangeView, y: ElementChangeView|
            #![trigger a.contains(x), b.contains(y)]
            a.contains(x) && b.contains(y) ==> !same_element(x, y),
    ensures
        apart(a + b),
{
    let s = a + b;
    assert forall|i: int, j: int| 0 <= i < s.len() && 0 <= j < s.len() && i
        != j implies !same_element(#[trigger] s[i], #[trigger] s[j]) by {
        if i < a.len() && j < a.len() {
            assert(!same_element(a[i], a[j]));
        } else if i >= a.len() && j >= a.len() {
            assert(!same_element(b[i - a.len()], b[j - a.len()]));
        } else if i < a.len() {
            assert(a.contains(a[i]) && b.contains(b[j - a.len()]));
        } else {
            assert(a.contains(a[j]) && b.contains(b[i - a.len()]));
        }
    }
}

proof fn lemma_collected_apart(s: Seq<Option<ElementChangeView>>, ks: Seq<Seq<char>>)
    requires
        s.len() == ks.len(),
        ascends(ks),
        forall|i: int| 0 <= i < s.len() && (#[trigger] s[i]) is Some ==> s[i]->0.id == ks[i],
    ensures
        apart(collected(s)),
    decreases s.len(),
{
    if s.len() > 0 {
        let d = s.drop_last();
        let e = ks.drop_last();
        assert forall|i: int, j: int| 0 <= i < j < e.len() implies lex_lt(
            #[trigger] e[i],
            #[trigger] e[j],
        ) by {
            assert(e[i] == ks[i] && e[j] == ks[j]);
        }
        assert forall|i: int| 0 <= i < d.len() && (#[trigger] d[i]) is Some implies d[i]->0.id
            == e[i] by {
            assert(d[i] == s[i]);
        }
        lemma_collected_apart(d, e);
        if s.last() is Some {
            let one = seq![s.last()->0];
            assert(collected(d).push(s.last()->0) =~= collected(d) + one);
            assert forall|x: ElementChangeView, y: ElementChangeView|
                #![trigger collected(d).contains(x), one.contains(y)]
                collected(d).contains(x) && one.contains(y) implies !same_element(x, y) by {
                let i = choose|i: int| 0 <= i < collected(d).len() && collected(d)[i] == x;
                let j = lemma_collected_from(d, i);
                assert(d[j] == s[j]);
                assert(s[s.len() - 1] == s.last());
                assert(lex_lt(ks[j], ks[ks.len() - 1]));
                lemma_lex_irreflexive(ks[j]);
                assert(y == one[0]);
            }
            lemma_apart_sum(collected(d), one);
        }
    }
}

proof fn lemma_walk_apart<T: Compared>(
    f: Map<Seq<char>, T::V>,
    t: Map<Seq<char>, T::V>,
    kind: ElementKind,
)
    requires
        telling::<T>(kind),
        silent::<T>(),
        f.dom().finite(),
        t.dom().finite(),
    ensures
        apart(kept_or_new::<T>(f, t)),
        apart(gone::<T>(f, t)),
        apart(kept_or_new::<T>(f, t) + gone::<T>(f, t)),
{
    lemma_ascending_of(f.dom());
    lemma_ascending_of(t.dom());
    let tk = ascending(t.dom());
    let a = Seq::new(
        tk.len(),
        |i: int| T::change_of(tk[i], lookup(f, tk[i]), lookup(t, tk[i])),
    );
    let fk = ascending(f.dom());
    let b = Seq::new(
        fk.len(),
        |i: int|
            if t.contains_key(fk[i]) {
                None
            } else {
                T::change_of(fk[i], lookup(f, fk[i]), None)
            },
    );
    lemma_collected_apart(a, tk);
    lemma_collected_apart(b, fk);
    let x = kept_or_new::<T>(f, t);
    let y = gone::<T>(f, t);
    assert forall|p: ElementChangeView, q: ElementChangeView|
        #![trigger x.contains(p), y.contains(q)]
        x.contains(p) && y.contains(q) implies !same_element(p, q) by {
        lemma_walk_told::<T>(f, t, kind, p);
        lemma_walk_told::<T>(f, t, kind, q);
    }
    lemma_apart_sum(x, y);
}

proof fn lemma_flattened_apart(s: Seq<Seq<ElementChangeView>>, ks: Seq<Seq<char>>)
    requires
        s.len() == ks.len(),
        ascends(ks),
        forall|i: int| 0 <= i < s.len() ==> apart(#[trigger] s[i]),
        forall|i: int, x: ElementChangeView|
            0 <= i < s.len() && (#[trigger] s[i]).contains(x) ==> x.kind == ElementKind::Property
                && #[trigger] x.owner_id == Some(ks[i]),
    ensures
        apart(flattened(s)),
    decreases s.len(),
{
    if s.len() > 0 {
        let d = s.drop_last();
        let e = ks.drop_last();
        assert forall|i: int, j: int| 0 <= i < j < e.len() implies lex_lt(
            #[trigger] e[i],
            #[trigger] e[j],
        ) by {
            assert(e[i] == ks[i] && e[j] == ks[j]);
        }
        assert forall|i: int| 0 <= i < d.len() implies apart(#[trigger] d[i]) by {
            assert(d[i] == s[i]);
        }
        assert forall|i: int, x: ElementChangeView|
            0 <= i < d.len() && (#[trigger] d[i]).contains(x) implies x.kind
            == ElementKind::Property && #[trigger] x.owner_id == Some(e[i]) by {
            assert(s[i].contains(x));
        }
        lemma_flattened_apart(d, e);
        let a = flattened(d);
        let b = s.last();
        assert(s[s.len() - 1] == b);
        assert forall|x: ElementChangeView, y: ElementChangeView|
            #![trigger a.contains(x), b.contains(y)]
            a.contains(x) && b.contains(y) implies !same_element(x, y) by {
            let k = lemma_flattened_has(d, x);
            assert(s[k].contains(x));
            assert(x.owner_id == Some(ks[k]));
            assert(s[s.len() - 1].contains(y));
            assert(y.owner_id == Some(ks[ks.len() - 1]));
            assert(lex_lt(ks[k], ks[ks.len() - 1]));
            lemma_lex_irreflexive(ks[k]);
        }
        lemma_apart_sum(a, b);
    }
}

proof fn lemma_props_apart(f: Seq<NodeView>, t: Seq<NodeView>)
    ensures
        apart(prop_diff(prop_index(f), prop_index(t))),
{
    let fm = prop_index(f);
    let tm = prop_index(t);
    lemma_props_tell();
    assert(silent::<OwnedProp>());
    lemma_prop_index_finite(f, Seq::empty());
    lemma_prop_index_finite(t, Seq::empty());
    lemma_ascending_of(fm.dom());
    lemma_ascending_of(tm.dom());
    let tk = ascending(tm.dom());
    let fk = ascending(fm.dom());
    let a = Seq::new(
        tk.len(),
        |i: int| kept_or_new::<OwnedProp>(inner(fm, tk[i]), inner(tm, tk[i])),
    );
    let b = Seq::new(fk.len(), |i: int| gone::<OwnedProp>(inner(fm, fk[i]), inner(tm, fk[i])));
    assert forall|i: int| 0 <= i < a.len() implies apart(#[trigger] a[i]) by {
        lemma_prop_index_finite(f, tk[i]);
        lemma_prop_index_finite(t, tk[i]);
        lemma_walk_apart::<OwnedProp>(inner(fm, tk[i]), inner(tm, tk[i]), ElementKind::Property);
    }
    assert forall|i: int| 0 <= i < b.len() implies apart(#[trigger] b[i]) by {
        lemma_prop_index_finite(f, fk[i]);
        lemma_prop_index_finite(t, fk[i]);
        lemma_walk_apart::<OwnedProp>(inner(fm, fk[i]), inner(tm, fk[i]), ElementKind::Property);
    }
    assert forall|i: int, x: ElementChangeView|
        0 <= i < a.len() && (#[trigger] a[i]).contains(x) implies x.kind == ElementKind::Property
        && #[trigger] x.owner_id == Some(tk[i]) by {
        lemma_prop_index_finite(f, tk[i]);
        lemma_prop_index_finite(t, tk[i]);
        lemma_walk_told::<OwnedProp>(inner(fm, tk[i]), inner(tm, tk[i]), ElementKind::Property, x);
        lemma_owner_told(f, t, tk[i], x.id);
    }
    assert forall|i: int, x: ElementChangeView|
        0 <= i < b.len() && (#[trigger] b[i]).contains(x) implies x.kind == ElementKind::Property
        && #[trigger] x.owner_id == Some(fk[i]) by {
        lemma_prop_index_finite(f, fk[i]);
        lemma_prop_index_finite(t, fk[i]);
        lemma_walk_told::<OwnedProp>(inner(fm, fk[i]), inner(tm, fk[i]), ElementKind::Property, x);
        lemma_owner_told(f, t, fk[i], x.id);
    }
    lemma_flattened_apart(a, tk);
    lemma_flattened_apart(b, fk);
    let x = flattened(a);
    let y = flattened(b);
    assert forall|p: ElementChangeView, q: ElementChangeView|
        #![trigger x.contains(p), y.contains(q)]
        x.contains(p) && y.contains(q) implies !same_element(p, q) by {
        let i = lemma_flattened_has(a, p);
        let j = lemma_flattened_has(b, q);
        assert(p.owner_id == Some(tk[i]));
        assert(q.owner_id == Some(fk[j]));
        lemma_prop_index_finite(f, tk[i]);
        lemma_prop_index_finite(t, tk[i]);
        lemma_walk_told::<OwnedProp>(inner(fm, tk[i]), inner(tm, tk[i]), ElementKind::Property, p);
        lemma_prop_index_finite(f, fk[j]);
        lemma_prop_index_finite(t, fk[j]);
        lemma_walk_told::<OwnedProp>(inner(fm, fk[j]), inner(tm, fk[j]), ElementKind::Property, q);
    }
    lemma_apart_sum(x, y);
}

spec fn of_kind(d: Seq<ElementChangeView>, kind: ElementKind) -> bool {
    forall|x: ElementChangeView| #[trigger] d.contains(x) ==> x.kind == kind
}

proof fn lemma_walk_kind<T: Compared>(
    f: Map<Seq<char>, T::V>,
    t: Map<Seq<char>, T::V>,
    kind: ElementKind,
)
    requires
        telling::<T>(kind),
        silent::<T>(),
        f.dom().finite(),
        t.dom().finite(),
    ensures
        of_kind(kept_or_new::<T>(f, t) + gone::<T>(f, t), kind),
{
    let a = kept_or_new::<T>(f, t);
    let b = gone::<T>(f, t);
    assert forall|x: ElementChangeView| #[trigger] (a + b).contains(x) implies x.kind == kind by {
        lemma_walk_told::<T>(f, t, kind, x);
        lemma_sum_has(a, b, x);
    }
}

/// A plan names each element once.
pub proof fn law_a_plan_names_each_element_once(a: ScryModelView, b: ScryModelView)
    ensures
        apart(diff_of(a, b)),
{
    lemma_nodes_tell();
    lemma_links_tell();
    lemma_claims_tell();
    lemma_groups_tell();
    lemma_node_index_finite(a.nodes);
    lemma_node_index_finite(b.nodes);
    lemma_link_index_finite(a.links);
    lemma_link_index_finite(b.links);
    lemma_claim_index_finite(a);
    lemma_claim_index_finite(b);
    lemma_group_index_finite(a.groups);
    lemma_group_index_finite(b.groups);
    assert(silent::<Node>());
    assert(silent::<Link>());
    assert(silent::<OwnedResp>());
    assert(silent::<Group>());
    let s1 = kept_or_new::<Node>(node_index(a.nodes), node_index(b.nodes));
    let s2 = gone::<Node>(node_index(a.nodes), node_index(b.nodes));
    let s3 = kept_or_new::<Link>(link_index(a.links), link_index(b.links));
    let s4 = gone::<Link>(link_index(a.links), link_index(b.links));
    let s5 = kept_or_new::<OwnedResp>(claim_index(a), claim_index(b));
    let s6 = gone::<OwnedResp>(claim_index(a), claim_index(b));
    let s7 = prop_diff(prop_index(a.nodes), prop_index(b.nodes));
    let s8 = kept_or_new::<Group>(group_index(a.groups), group_index(b.groups));
    let s9 = gone::<Group>(group_index(a.groups), group_index(b.groups));
    lemma_walk_apart::<Node>(node_index(a.nodes), node_index(b.nodes), ElementKind::Node);
    lemma_walk_kind::<Node>(node_index(a.nodes), node_index(b.nodes), ElementKind::Node);
    lemma_walk_apart::<Link>(link_index(a.links), link_index(b.links), ElementKind::Link);
    lemma_walk_kind::<Link>(link_index(a.links), link_index(b.links), ElementKind::Link);
    lemma_walk_apart::<OwnedResp>(claim_index(a), claim_index(b), ElementKind::Responsibility);
    lemma_walk_kind::<OwnedResp>(claim_index(a), claim_index(b), ElementKind::Responsibility);
    lemma_walk_apart::<Group>(group_index(a.groups), group_index(b.groups), ElementKind::Group);
    lemma_walk_kind::<Group>(group_index(a.groups), group_index(b.groups), ElementKind::Group);
    lemma_props_apart(a.nodes, b.nodes);
    assert(of_kind(s7, ElementKind::Property)) by {
        assert forall|x: ElementChangeView| #[trigger] s7.contains(x) implies x.kind
            == ElementKind::Property by {
            lemma_props_said(a.nodes, b.nodes, x);
        }
    }
    let n = s1 + s2;
    let l = s3 + s4;
    let c = s5 + s6;
    let g = s8 + s9;
    lemma_apart_sum(n, l);
    let nl = n + l;
    assert forall|x: ElementChangeView| #[trigger] nl.contains(x) implies x.kind
        == ElementKind::Node || x.kind == ElementKind::Link by {
        lemma_sum_has(n, l, x);
    }
    lemma_apart_sum(nl, c);
    let nlc = nl + c;
    assert forall|x: ElementChangeView| #[trigger] nlc.contains(x) implies x.kind
        == ElementKind::Node || x.kind == ElementKind::Link || x.kind
        == ElementKind::Responsibility by {
        lemma_sum_has(nl, c, x);
    }
    lemma_apart_sum(nlc, s7);
    let nlcp = nlc + s7;
    assert forall|x: ElementChangeView| #[trigger] nlcp.contains(x) implies x.kind
        != ElementKind::Group by {
        lemma_sum_has(nlc, s7, x);
    }
    lemma_apart_sum(nlcp, g);
    assert(diff_of(a, b) =~= nlcp + g);
}

/// Has no node of the model a colon in its id?
pub open spec fn no_colons(m: ScryModelView) -> bool {
    forall|i: int| 0 <= i < m.nodes.len() ==> !(#[trigger] m.nodes[i]).id.contains(':')
}

proof fn lemma_owner_is_node(a: ScryModelView, b: ScryModelView, ch: ElementChangeView)
    requires
        diff_of(a, b).contains(ch),
        ch.kind == ElementKind::Property,
        no_colons(a),
        no_colons(b),
    ensures
        ch.owner_id is Some,
        !ch.owner_id->0.contains(':'),
{
    law_a_plan_is_made_element_by_element(a, b, ch);
    let o = ch.owner_id->0;
    lemma_prop_index_owned(a.nodes, o);
    lemma_prop_index_owned(b.nodes, o);
    if has_named::<Node>(a.nodes, o) {
        let i = choose|i: int| 0 <= i < a.nodes.len() && Node::name_of(#[trigger] a.nodes[i]) == o;
        assert(!a.nodes[i].id.contains(':'));
    } else if has_named::<Node>(b.nodes, o) {
        let i = choose|i: int| 0 <= i < b.nodes.len() && Node::name_of(#[trigger] b.nodes[i]) == o;
        assert(!b.nodes[i].id.contains(':'));
    } else {
        assert(OwnedProp::change_of(ch.id, None, None) is None);
    }
}

/// The element that a key of an entry names.
spec fn element(ch: ElementChangeView) -> (ElementKind, Option<Seq<char>>, Seq<char>) {
    (
        ch.kind,
        if ch.kind == ElementKind::Property {
            ch.owner_id
        } else {
            None
        },
        ch.id,
    )
}

proof fn lemma_key_names(a: ScryModelView, b: ScryModelView, ch: ElementChangeView)
    requires
        diff_of(a, b).contains(ch),
        no_colons(a),
        no_colons(b),
    ensures
        parsed(key_of(ch)) == Some(element(ch)),
{
    if ch.kind == ElementKind::Property {
        lemma_owner_is_node(a, b, ch);
    }
    lemma_key_of_kind(ch.kind, ch.owner_id, element(ch).1, ch.id);
    law_key_round_trip(ch.kind, element(ch).1, ch.id);
}

/// No two entries of a plan share a key, as long as no node has a colon in its id.
pub proof fn law_no_two_entries_share_a_key(a: ScryModelView, b: ScryModelView, i: int, j: int)
    requires
        no_colons(a),
        no_colons(b),
        0 <= i < diff_of(a, b).len(),
        0 <= j < diff_of(a, b).len(),
        i != j,
    ensures
        key_of(diff_of(a, b)[i]) != key_of(diff_of(a, b)[j]),
{
    let d = diff_of(a, b);
    law_a_plan_names_each_element_once(a, b);
    assert(d.contains(d[i]) && d.contains(d[j]));
    lemma_key_names(a, b, d[i]);
    lemma_key_names(a, b, d[j]);
    assert(!same_element(d[i], d[j]));
}

// ---- the fold ---------------------------------------------------------------------

/// Are the ids of a model its own: those of nodes, links and groups, those of claims
/// wherever they stand, and the labels of properties on one node?
pub open spec fn ids_unique(m: ScryModelView) -> bool {
    &&& names_differ::<Node>(m.nodes)
    &&& names_differ::<Link>(m.links)
    &&& names_differ::<Group>(m.groups)
    &&& forall|id: Seq<char>| #[trigger] claimed_once(m, id)
    &&& forall|i: int|
        0 <= i < m.nodes.len() ==> names_differ::<SchemaProperty>(
            (#[trigger] m.nodes[i]).properties,
        )
}

/// The plan clears: once an element has folded, whatever its kind, no entry of the plan has
/// its key any more.
pub proof fn law_a_folded_element_is_not_pending(
    m: ScryModelView,
    p: ScryModelView,
    kind: ElementKind,
    owner: Option<Seq<char>>,
    id: Seq<char>,
    withhold: Seq<Seq<char>>,
    ch: ElementChangeView,
)
    requires
        ids_unique(m),
        ids_unique(p),
        no_colons(m),
        no_colons(p),
        fold(m, p, kind, owner, id, withhold) is Ok,
        ({
            let f = fold(m, p, kind, owner, id, withhold)->Ok_0;
            diff_of(f.committed, f.planned).contains(ch)
        }),
    ensures
        key_of(ch) != key(kind, owner, id),
{
    let f = fold(m, p, kind, owner, id, withhold)->Ok_0;
    let d = diff_of(f.committed, f.planned);
    let i = choose|i: int| 0 <= i < d.len() && d[i] == ch;
    lemma_fold_kind(m, p, kind, owner, id, withhold);
    match kind {
        ElementKind::Node => law_a_folded_node_is_not_pending(m, p, id, withhold),
        ElementKind::Link => law_a_folded_link_is_not_pending(m, p, id),
        ElementKind::Group => law_a_folded_group_is_not_pending(m, p, id, withhold),
        ElementKind::Responsibility => {
            assert(claimed_once(p, id));
            law_a_folded_claim_is_not_pending(m, p, id);
        },
        ElementKind::Property => {
            assert(owner is Some);
            law_a_folded_property_is_not_pending(m, p, owner->0, id);
        },
    }
    if key_of(ch) == key(kind, owner, id) {
        let o = if kind == ElementKind::Property {
            owner
        } else {
            None
        };
        if kind == ElementKind::Property {
            lemma_place_of::<Node>(m.nodes, owner->0);
            let q = place_of::<Node>(m.nodes, owner->0);
            assert(!m.nodes[q].id.contains(':'));
        }
        lemma_key_of_kind(kind, owner, o, id);
        law_key_round_trip(kind, o, id);
        if ch.kind == ElementKind::Property {
            if kind == ElementKind::Property {
                lemma_fold_keeps_colons(m, p, owner, id);
                lemma_owner_is_node(f.committed, f.planned, ch);
                law_key_round_trip(ch.kind, ch.owner_id, ch.id);
            } else {
                lemma_kinds_differ(ch, kind, owner, id);
            }
        } else {
            lemma_key_of_kind(ch.kind, ch.owner_id, None, ch.id);
            law_key_round_trip(ch.kind, None, ch.id);
        }
    }
}

proof fn lemma_kinds_differ(
    ch: ElementChangeView,
    kind: ElementKind,
    owner: Option<Seq<char>>,
    id: Seq<char>,
)
    requires
        ch.kind == ElementKind::Property,
        kind != ElementKind::Property,
    ensures
        key_of(ch) != key(kind, owner, id),
{
    reveal_strlit("node:");
    reveal_strlit("link:");
    reveal_strlit("group:");
    reveal_strlit("resp:");
    reveal_strlit("prop:");
    reveal_strlit(":");
    assert(key_of(ch)[0] == 'p');
    assert(key(kind, owner, id)[0] != 'p');
}

proof fn lemma_fold_kind(
    m: ScryModelView,
    p: ScryModelView,
    kind: ElementKind,
    owner: Option<Seq<char>>,
    id: Seq<char>,
    withhold: Seq<Seq<char>>,
)
    ensures
        kind == ElementKind::Node || kind == ElementKind::Group ==> fold(
            m,
            p,
            kind,
            owner,
            id,
            withhold,
        ) == fold(m, p, kind, None, id, withhold),
        kind == ElementKind::Link || kind == ElementKind::Responsibility ==> fold(
            m,
            p,
            kind,
            owner,
            id,
            withhold,
        ) == fold(m, p, kind, None, id, Seq::empty()),
        kind == ElementKind::Property ==> fold(m, p, kind, owner, id, withhold) == fold(
            m,
            p,
            kind,
            owner,
            id,
            Seq::empty(),
        ),
{
}

proof fn lemma_fold_keeps_colons(
    m: ScryModelView,
    p: ScryModelView,
    owner: Option<Seq<char>>,
    id: Seq<char>,
)
    requires
        no_colons(m),
        no_colons(p),
        fold(m, p, ElementKind::Property, owner, id, Seq::empty()) is Ok,
    ensures
        ({
            let f = fold(m, p, ElementKind::Property, owner, id, Seq::empty())->Ok_0;
            no_colons(f.committed) && no_colons(f.planned)
        }),
{
    let f = fold(m, p, ElementKind::Property, owner, id, Seq::empty())->Ok_0;
    let l = prop_fold(m, p, owner, id)->Ok_0;
    lemma_place_of::<Node>(m.nodes, owner->0);
    lemma_place_of::<Node>(p.nodes, owner->0);
    assert(f.committed.nodes == l.committed.nodes && f.planned.nodes == l.planned.nodes);
    assert(l.committed.nodes.len() == m.nodes.len() && l.planned.nodes.len() == p.nodes.len());
    assert forall|i: int| 0 <= i < f.committed.nodes.len() implies !(
    #[trigger] f.committed.nodes[i]).id.contains(':') by {
        assert(!m.nodes[i].id.contains(':'));
    }
    assert forall|i: int| 0 <= i < f.planned.nodes.len() implies !(
    #[trigger] f.planned.nodes[i]).id.contains(':') by {
        assert(!p.nodes[i].id.contains(':'));
    }
}

} // verus!
