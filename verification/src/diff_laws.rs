//! What a plan says of an element, field by field.

use crate::abandon_laws::has_element;
use crate::diff::{
    claim_index, diff_of, group_changes, group_index, inner, kind_name, link_changes, link_index,
    lookup, node_changes, node_claims, node_index, prop_index, resp_changes, reworded, without,
    Carried, ChangeView, ElementChangeView, ElementKind, OwnedPropView, OwnedRespView,
};
use crate::fold_laws::{
    claimed_once, lemma_group_claims_at, lemma_group_claims_none, lemma_group_index_at,
    lemma_group_index_names, lemma_link_index_at, lemma_link_index_names, lemma_node_claims_at,
    lemma_node_claims_none, lemma_node_index_at, lemma_node_index_names, lemma_prop_index_at,
    lemma_prop_index_owned, lemma_with_props, names_differ, nodes_claim,
};
use crate::model::{
    directive_lines, Group, GroupView, Kind, Link, LinkView, Node, NodeView, Responsibility,
    ResponsibilityView, SchemaProperty, SchemaPropertyView, ScryModelView,
};
use crate::named::{has_named, Named};
use crate::plan_laws::{law_a_plan_is_made_element_by_element, said_of};
use crate::text::joined;
use vstd::prelude::*;
use vstd::string::*;

verus! {

// ---- texts ------------------------------------------------------------------------------

/// A text that may be missing, which reads as an empty one.
pub open spec fn read_as(o: Option<Seq<char>>) -> Seq<char> {
    match o {
        Some(s) => s,
        None => Seq::empty(),
    }
}

/// A mark as it is told: off where it is missing.
pub open spec fn told_mark(o: Option<bool>) -> Seq<char> {
    if o == Some(true) {
        "true"@
    } else {
        "false"@
    }
}

/// Is the change a rewording of the field from one text to another?
pub open spec fn rewords(
    ch: ChangeView,
    field: Seq<char>,
    from: Seq<char>,
    to: Seq<char>,
) -> bool {
    from != to && ch == (ChangeView::Reworded { field, from, to })
}

proof fn lemma_reworded_has(
    cs: Seq<ChangeView>,
    field: Seq<char>,
    from: Seq<char>,
    to: Seq<char>,
    ch: ChangeView,
)
    ensures
        reworded(cs, field, from, to).contains(ch) <==> cs.contains(ch) || rewords(
            ch,
            field,
            from,
            to,
        ),
{
    if from != to {
        lemma_pushed_has(cs, ChangeView::Reworded { field, from, to }, ch);
    }
}

proof fn lemma_pushed_has(cs: Seq<ChangeView>, last: ChangeView, ch: ChangeView)
    ensures
        cs.push(last).contains(ch) <==> cs.contains(ch) || ch == last,
{
    let all = cs.push(last);
    assert(all[cs.len() as int] == last);
    if cs.contains(ch) {
        let i = choose|i: int| 0 <= i < cs.len() && cs[i] == ch;
        assert(all[i] == ch);
    }
    if all.contains(ch) && ch != last {
        let i = choose|i: int| 0 <= i < all.len() && all[i] == ch;
        assert(cs[i] == ch);
    }
}

/// Does the plan hold an entry on the element?
pub open spec fn has_entry(
    a: ScryModelView,
    b: ScryModelView,
    kind: ElementKind,
    owner: Option<Seq<char>>,
    id: Seq<char>,
) -> bool {
    exists|e: ElementChangeView| #[trigger] is_entry(a, b, kind, owner, id, e)
}

/// Is it an entry of the plan on the element? A property is known by its owner too.
pub open spec fn is_entry(
    a: ScryModelView,
    b: ScryModelView,
    kind: ElementKind,
    owner: Option<Seq<char>>,
    id: Seq<char>,
    e: ElementChangeView,
) -> bool {
    diff_of(a, b).contains(e) && e.kind == kind && e.id == id && (kind == ElementKind::Property
        ==> e.owner_id == owner)
}

proof fn lemma_entry(
    a: ScryModelView,
    b: ScryModelView,
    kind: ElementKind,
    owner: Option<Seq<char>>,
    id: Seq<char>,
)
    requires
        kind == ElementKind::Property ==> owner is Some,
    ensures
        has_entry(a, b, kind, owner, id) <==> said_of(a, b, kind, owner, id) is Some,
        forall|e: ElementChangeView| #[trigger]
            is_entry(a, b, kind, owner, id, e) ==> said_of(a, b, kind, owner, id) == Some(e),
{
    crate::revert_laws::lemma_nodes_tell();
    crate::revert_laws::lemma_links_tell();
    crate::revert_laws::lemma_claims_tell();
    crate::revert_laws::lemma_groups_tell();
    crate::revert_laws::lemma_props_tell();
    if owner is Some {
        lemma_prop_index_owned(a.nodes, owner->0);
        lemma_prop_index_owned(b.nodes, owner->0);
    }
    assert forall|e: ElementChangeView| #[trigger]
        is_entry(a, b, kind, owner, id, e) implies said_of(a, b, kind, owner, id) == Some(e) by {
        law_a_plan_is_made_element_by_element(a, b, e);
    }
    if said_of(a, b, kind, owner, id) is Some {
        let e = said_of(a, b, kind, owner, id)->0;
        assert(e.kind == kind && e.id == id);
        assert(kind == ElementKind::Property ==> e.owner_id == owner);
        assert(said_of(a, b, e.kind, e.owner_id, e.id) == Some(e));
        law_a_plan_is_made_element_by_element(a, b, e);
        assert(is_entry(a, b, kind, owner, id, e));
    }
}

// ---- nodes ------------------------------------------------------------------------------

/// Is the change one between the two versions of a node?
pub open spec fn node_change(x: NodeView, y: NodeView, ch: ChangeView) -> bool {
    ||| x.parent_id != y.parent_id && ch == (ChangeView::Moved {
        from: x.parent_id,
        to: y.parent_id,
    })
    ||| rewords(ch, "name"@, x.name, y.name)
    ||| rewords(ch, "technology"@, read_as(x.technology), read_as(y.technology))
    ||| rewords(ch, "description"@, read_as(x.description), read_as(y.description))
    ||| rewords(ch, "directives"@, directive_lines(x.directives), directive_lines(y.directives))
    ||| rewords(ch, "kind"@, kind_name(x.kind), kind_name(y.kind))
    ||| rewords(ch, "external"@, told_mark(x.external), told_mark(y.external))
}

proof fn lemma_node_change(x: NodeView, y: NodeView, ch: ChangeView)
    ensures
        node_changes(x, y).contains(ch) <==> node_change(x, y, ch),
{
    let c0: Seq<ChangeView> = if x.parent_id != y.parent_id {
        seq![ChangeView::Moved { from: x.parent_id, to: y.parent_id }]
    } else {
        Seq::empty()
    };
    lemma_lone(c0, x.parent_id != y.parent_id, ChangeView::Moved { from: x.parent_id, to: y.parent_id }, ch);
    let c1 = reworded(c0, "name"@, x.name, y.name);
    lemma_reworded_has(c0, "name"@, x.name, y.name, ch);
    let c2 = reworded(c1, "technology"@, read_as(x.technology), read_as(y.technology));
    lemma_reworded_has(c1, "technology"@, read_as(x.technology), read_as(y.technology), ch);
    let c3 = reworded(c2, "description"@, read_as(x.description), read_as(y.description));
    lemma_reworded_has(c2, "description"@, read_as(x.description), read_as(y.description), ch);
    let c4 = reworded(
        c3,
        "directives"@,
        directive_lines(x.directives),
        directive_lines(y.directives),
    );
    lemma_reworded_has(
        c3,
        "directives"@,
        directive_lines(x.directives),
        directive_lines(y.directives),
        ch,
    );
    let c5 = reworded(c4, "kind"@, kind_name(x.kind), kind_name(y.kind));
    lemma_reworded_has(c4, "kind"@, kind_name(x.kind), kind_name(y.kind), ch);
    lemma_reworded_has(c5, "external"@, told_mark(x.external), told_mark(y.external), ch);
    assert(node_changes(x, y) == reworded(
        c5,
        "external"@,
        told_mark(x.external),
        told_mark(y.external),
    ));
}

proof fn lemma_lone(c0: Seq<ChangeView>, there: bool, one: ChangeView, ch: ChangeView)
    requires
        c0 == if there {
            seq![one]
        } else {
            Seq::empty()
        },
    ensures
        c0.contains(ch) <==> there && ch == one,
{
    if there {
        assert(c0[0] == one);
    }
}

/// Kinds are told by different names.
pub proof fn law_kinds_are_told_apart(a: Kind, b: Kind)
    ensures
        kind_name(a) == kind_name(b) <==> a == b,
{
    reveal_strlit("person");
    reveal_strlit("system");
    reveal_strlit("container");
    reveal_strlit("component");
    reveal_strlit("symbol");
    assert("person"@[0] == 'p');
    assert("system"@[1] == 'y');
    assert("symbol"@[2] == 'm');
    assert("system"@[2] == 's');
    assert("container"@[3] == 't');
    assert("component"@[3] == 'p');
    assert("container"@[0] == 'c');
    assert("component"@[0] == 'c');
    assert("system"@[0] == 's');
    assert("symbol"@[0] == 's');
}

/// Do two versions of a node agree in everything that is planned: parent, name, technology,
/// description, directives as they read, kind, and whether it is external?
pub open spec fn nodes_agree(x: NodeView, y: NodeView) -> bool {
    &&& x.parent_id == y.parent_id
    &&& x.name == y.name
    &&& read_as(x.technology) == read_as(y.technology)
    &&& read_as(x.description) == read_as(y.description)
    &&& directive_lines(x.directives) == directive_lines(y.directives)
    &&& x.kind == y.kind
    &&& (x.external == Some(true)) == (y.external == Some(true))
}

/// A node that both layers have is in the plan exactly where the two versions do not agree.
/// Its entry goes by the planned name and holds a change for each field that differs, from the
/// committed text to the planned one, and no other.
pub proof fn law_a_changed_node_is_planned(a: ScryModelView, b: ScryModelView, i: int, j: int)
    requires
        names_differ::<Node>(a.nodes),
        names_differ::<Node>(b.nodes),
        0 <= i < a.nodes.len(),
        0 <= j < b.nodes.len(),
        a.nodes[i].id == b.nodes[j].id,
    ensures
        ({
            let (x, y) = (a.nodes[i], b.nodes[j]);
            &&& has_entry(a, b, ElementKind::Node, None, x.id) <==> !nodes_agree(x, y)
            &&& forall|e: ElementChangeView| #[trigger]
                is_entry(a, b, ElementKind::Node, None, x.id, e) ==> {
                    &&& e.owner_id is None
                    &&& e.label == y.name
                    &&& e.from is None
                    &&& e.to is None
                    &&& forall|ch: ChangeView| #[trigger]
                        e.changes.contains(ch) <==> node_change(x, y, ch)
                }
        }),
{
    let (x, y) = (a.nodes[i], b.nodes[j]);
    lemma_node_index_at(a.nodes, i);
    lemma_node_index_at(b.nodes, j);
    lemma_entry(a, b, ElementKind::Node, None, x.id);
    law_kinds_are_told_apart(x.kind, y.kind);
    lemma_marks_apart();
    let cs = node_changes(x, y);
    assert forall|ch: ChangeView| #[trigger] cs.contains(ch) <==> node_change(x, y, ch) by {
        lemma_node_change(x, y, ch);
    }
    if cs.len() > 0 {
        assert(cs.contains(cs[0]));
        assert(node_change(x, y, cs[0]));
    } else {
        lemma_nothing(cs, ChangeView::Moved { from: x.parent_id, to: y.parent_id });
        lemma_none_told(cs, "name"@, x.name, y.name);
        lemma_none_told(cs, "technology"@, read_as(x.technology), read_as(y.technology));
        lemma_none_told(cs, "description"@, read_as(x.description), read_as(y.description));
        lemma_none_told(
            cs,
            "directives"@,
            directive_lines(x.directives),
            directive_lines(y.directives),
        );
        lemma_none_told(cs, "kind"@, kind_name(x.kind), kind_name(y.kind));
        lemma_none_told(cs, "external"@, told_mark(x.external), told_mark(y.external));
    }
}

proof fn lemma_marks_apart()
    ensures
        "true"@ != "false"@,
{
    reveal_strlit("true");
    reveal_strlit("false");
    assert("true"@.len() != "false"@.len());
}

proof fn lemma_nothing(cs: Seq<ChangeView>, ch: ChangeView)
    requires
        cs.len() == 0,
    ensures
        !cs.contains(ch),
{
}

proof fn lemma_none_told(cs: Seq<ChangeView>, field: Seq<char>, from: Seq<char>, to: Seq<char>)
    requires
        cs.len() == 0,
    ensures
        from != to ==> rewords(ChangeView::Reworded { field, from, to }, field, from, to),
        !cs.contains(ChangeView::Reworded { field, from, to }),
{
}

// ---- links ------------------------------------------------------------------------------

/// Is the change one between the two versions of a link?
pub open spec fn link_change(x: LinkView, y: LinkView, ch: ChangeView) -> bool {
    ||| (x.src != y.src || x.dst != y.dst) && ch == (ChangeView::Repointed {
        src_from: x.src,
        src_to: y.src,
        dst_from: x.dst,
        dst_to: y.dst,
    })
    ||| rewords(ch, "label"@, x.label, y.label)
    ||| rewords(ch, "method"@, read_as(x.method), read_as(y.method))
}

/// A link that both layers have is in the plan exactly where its ends, its label or its method
/// differ. Its entry goes by the planned label, names the planned ends, and holds a change for
/// each difference and no other.
pub proof fn law_a_changed_link_is_planned(a: ScryModelView, b: ScryModelView, i: int, j: int)
    requires
        names_differ::<Link>(a.links),
        names_differ::<Link>(b.links),
        0 <= i < a.links.len(),
        0 <= j < b.links.len(),
        a.links[i].id == b.links[j].id,
    ensures
        ({
            let (x, y) = (a.links[i], b.links[j]);
            &&& has_entry(a, b, ElementKind::Link, None, x.id) <==> !(x.src == y.src && x.dst
                == y.dst && x.label == y.label && read_as(x.method) == read_as(y.method))
            &&& forall|e: ElementChangeView| #[trigger]
                is_entry(a, b, ElementKind::Link, None, x.id, e) ==> {
                    &&& e.owner_id is None
                    &&& e.label == y.label
                    &&& e.from == Some(y.src)
                    &&& e.to == Some(y.dst)
                    &&& forall|ch: ChangeView| #[trigger]
                        e.changes.contains(ch) <==> link_change(x, y, ch)
                }
        }),
{
    let (x, y) = (a.links[i], b.links[j]);
    lemma_link_index_at(a.links, i);
    lemma_link_index_at(b.links, j);
    lemma_entry(a, b, ElementKind::Link, None, x.id);
    let cs = link_changes(x, y);
    let one = ChangeView::Repointed {
        src_from: x.src,
        src_to: y.src,
        dst_from: x.dst,
        dst_to: y.dst,
    };
    let c0: Seq<ChangeView> = if x.src != y.src || x.dst != y.dst {
        seq![one]
    } else {
        Seq::empty()
    };
    let c1 = reworded(c0, "label"@, x.label, y.label);
    assert forall|ch: ChangeView| #[trigger] cs.contains(ch) <==> link_change(x, y, ch) by {
        lemma_lone(c0, x.src != y.src || x.dst != y.dst, one, ch);
        lemma_reworded_has(c0, "label"@, x.label, y.label, ch);
        lemma_reworded_has(c1, "method"@, read_as(x.method), read_as(y.method), ch);
        assert(cs == reworded(c1, "method"@, read_as(x.method), read_as(y.method)));
    }
    if cs.len() > 0 {
        assert(cs.contains(cs[0]));
        assert(link_change(x, y, cs[0]));
    } else {
        lemma_nothing(cs, one);
        lemma_none_told(cs, "label"@, x.label, y.label);
        lemma_none_told(cs, "method"@, read_as(x.method), read_as(y.method));
    }
}

// ---- groups -----------------------------------------------------------------------------

/// What a group hangs on: its parent group, and without one its node.
pub open spec fn hangs_on(g: GroupView) -> Option<Seq<char>> {
    if g.parent_group_id is Some {
        g.parent_group_id
    } else {
        g.parent_node_id
    }
}

/// The ids of one list that the other does not have, in order.
pub open spec fn only_in(a: Seq<Seq<char>>, b: Seq<Seq<char>>) -> Seq<Seq<char>> {
    a.filter(|x: Seq<char>| !b.contains(x))
}

/// Do the two lists hold the same ids?
pub open spec fn same_members(a: Seq<Seq<char>>, b: Seq<Seq<char>>) -> bool {
    forall|x: Seq<char>| #[trigger] a.contains(x) <==> b.contains(x)
}

/// Is the change one between the two versions of a group?
pub open spec fn group_change(x: GroupView, y: GroupView, ch: ChangeView) -> bool {
    ||| hangs_on(x) != hangs_on(y) && ch == (ChangeView::Moved {
        from: hangs_on(x),
        to: hangs_on(y),
    })
    ||| rewords(ch, "name"@, x.name, y.name)
    ||| rewords(ch, "description"@, read_as(x.description), read_as(y.description))
    ||| !same_members(x.member_ids, y.member_ids) && ch == (ChangeView::MembersChanged {
        added: only_in(y.member_ids, x.member_ids),
        removed: only_in(x.member_ids, y.member_ids),
    })
}

proof fn lemma_none_left(a: Seq<Seq<char>>, b: Seq<Seq<char>>)
    ensures
        without(a, b) == only_in(a, b),
        without(a, b).len() == 0 <==> forall|x: Seq<char>| #[trigger]
            a.contains(x) ==> b.contains(x),
{
    crate::commit_laws::lemma_without(a, b);
    let f = |x: Seq<char>| !b.contains(x);
    if without(a, b).len() == 0 {
        assert forall|x: Seq<char>| #[trigger] a.contains(x) implies b.contains(x) by {
            let i = choose|i: int| 0 <= i < a.len() && a[i] == x;
            if f(a[i]) {
                a.lemma_filter_contains(f, i);
                assert(a.filter(f).contains(a[i]));
            }
        }
    } else if forall|x: Seq<char>| #[trigger] a.contains(x) ==> b.contains(x) {
        assert forall|i: int| 0 <= i < a.len() implies b.contains(#[trigger] a[i]) by {
            assert(a.contains(a[i]));
        }
        crate::diff::lemma_without_self(a, b);
    }
}

/// A group that both layers have is in the plan exactly where what it hangs on, its name, its
/// description or its members differ. Its entry goes by the planned name and holds a change
/// for each difference and no other: of the members, which came and which went, in order.
pub proof fn law_a_changed_group_is_planned(a: ScryModelView, b: ScryModelView, i: int, j: int)
    requires
        names_differ::<Group>(a.groups),
        names_differ::<Group>(b.groups),
        0 <= i < a.groups.len(),
        0 <= j < b.groups.len(),
        a.groups[i].id == b.groups[j].id,
    ensures
        ({
            let (x, y) = (a.groups[i], b.groups[j]);
            &&& has_entry(a, b, ElementKind::Group, None, x.id) <==> !(hangs_on(x) == hangs_on(y)
                && x.name == y.name && read_as(x.description) == read_as(y.description)
                && same_members(x.member_ids, y.member_ids))
            &&& forall|e: ElementChangeView| #[trigger]
                is_entry(a, b, ElementKind::Group, None, x.id, e) ==> {
                    &&& e.owner_id is None
                    &&& e.label == y.name
                    &&& e.from is None
                    &&& e.to is None
                    &&& forall|ch: ChangeView| #[trigger]
                        e.changes.contains(ch) <==> group_change(x, y, ch)
                }
        }),
{
    let (x, y) = (a.groups[i], b.groups[j]);
    lemma_group_index_at(a.groups, i);
    lemma_group_index_at(b.groups, j);
    lemma_entry(a, b, ElementKind::Group, None, x.id);
    lemma_none_left(x.member_ids, y.member_ids);
    lemma_none_left(y.member_ids, x.member_ids);
    let cs = group_changes(x, y);
    let one = ChangeView::Moved { from: hangs_on(x), to: hangs_on(y) };
    let c0: Seq<ChangeView> = if hangs_on(x) != hangs_on(y) {
        seq![one]
    } else {
        Seq::empty()
    };
    let c1 = reworded(c0, "name"@, x.name, y.name);
    let c2 = reworded(c1, "description"@, read_as(x.description), read_as(y.description));
    let members = ChangeView::MembersChanged {
        added: only_in(y.member_ids, x.member_ids),
        removed: only_in(x.member_ids, y.member_ids),
    };
    let differ = !same_members(x.member_ids, y.member_ids);
    assert(differ <==> without(y.member_ids, x.member_ids).len() > 0 || without(
        x.member_ids,
        y.member_ids,
    ).len() > 0);
    assert(cs == if differ {
        c2.push(members)
    } else {
        c2
    });
    assert forall|ch: ChangeView| #[trigger] cs.contains(ch) <==> group_change(x, y, ch) by {
        lemma_lone(c0, hangs_on(x) != hangs_on(y), one, ch);
        lemma_reworded_has(c0, "name"@, x.name, y.name, ch);
        lemma_reworded_has(c1, "description"@, read_as(x.description), read_as(y.description), ch);
        lemma_pushed_has(c2, members, ch);
    }
    if cs.len() > 0 {
        assert(cs.contains(cs[0]));
        assert(group_change(x, y, cs[0]));
    } else {
        lemma_nothing(cs, one);
        lemma_nothing(cs, members);
        lemma_none_told(cs, "name"@, x.name, y.name);
        lemma_none_told(cs, "description"@, read_as(x.description), read_as(y.description));
    }
}

// ---- claims -----------------------------------------------------------------------------

/// Does the host, a node or a group, make the claim?
pub open spec fn makes(m: ScryModelView, host: Seq<char>, r: ResponsibilityView) -> bool {
    ||| exists|i: int, k: int|
        #![trigger m.nodes[i].responsibilities[k]]
        0 <= i < m.nodes.len() && 0 <= k < m.nodes[i].responsibilities.len() && m.nodes[i].id
            == host && m.nodes[i].responsibilities[k] == r
    ||| exists|i: int, k: int|
        #![trigger m.groups[i].responsibilities[k]]
        0 <= i < m.groups.len() && 0 <= k < m.groups[i].responsibilities.len() && m.groups[i].id
            == host && m.groups[i].responsibilities[k] == r
}

/// Is the change one between the two versions of a claim, on the host that makes each?
pub open spec fn claim_change(
    g: Seq<char>,
    x: ResponsibilityView,
    h: Seq<char>,
    y: ResponsibilityView,
    ch: ChangeView,
) -> bool {
    ||| g != h && ch == (ChangeView::Moved { from: Some(g), to: Some(h) })
    ||| rewords(ch, "title"@, read_as(x.title), read_as(y.title))
    ||| rewords(ch, "statement"@, x.statement, y.statement)
    ||| rewords(ch, "directives"@, directive_lines(x.directives), directive_lines(y.directives))
    ||| rewords(ch, "cites"@, joined(x.cites, ", "@), joined(y.cites, ", "@))
}

proof fn lemma_claim_at(m: ScryModelView, host: Seq<char>, r: ResponsibilityView)
    requires
        makes(m, host, r),
        claimed_once(m, r.id),
    ensures
        lookup(claim_index(m), r.id) == Some(OwnedRespView { owner_id: host, resp: r }),
{
    if exists|i: int, k: int|
        #![trigger m.nodes[i].responsibilities[k]]
        0 <= i < m.nodes.len() && 0 <= k < m.nodes[i].responsibilities.len() && m.nodes[i].id
            == host && m.nodes[i].responsibilities[k] == r {
        let (i, k) = choose|i: int, k: int|
            #![trigger m.nodes[i].responsibilities[k]]
            0 <= i < m.nodes.len() && 0 <= k < m.nodes[i].responsibilities.len() && m.nodes[i].id
                == host && m.nodes[i].responsibilities[k] == r;
        assert(Responsibility::name_of(m.nodes[i].responsibilities[k]) == r.id);
        assert(has_named::<Responsibility>(m.nodes[i].responsibilities, r.id));
        assert(nodes_claim(m.nodes, r.id));
        lemma_node_claims_at(m.nodes, r.id, i, k);
        lemma_group_claims_none(node_claims(m.nodes), m.groups, r.id);
    } else {
        let (i, k) = choose|i: int, k: int|
            #![trigger m.groups[i].responsibilities[k]]
            0 <= i < m.groups.len() && 0 <= k < m.groups[i].responsibilities.len()
                && m.groups[i].id == host && m.groups[i].responsibilities[k] == r;
        assert(Responsibility::name_of(m.groups[i].responsibilities[k]) == r.id);
        assert(has_named::<Responsibility>(m.groups[i].responsibilities, r.id));
        lemma_group_claims_at(node_claims(m.nodes), m.groups, r.id, i, k);
    }
}

/// A claim that both layers make is in the plan exactly where its host, its title, its
/// statement, its directives as they read or its citations as they read differ. Its entry
/// names the planned host, goes by the planned statement, and holds a change for each
/// difference and no other.
pub proof fn law_a_changed_claim_is_planned(
    a: ScryModelView,
    b: ScryModelView,
    g: Seq<char>,
    x: ResponsibilityView,
    h: Seq<char>,
    y: ResponsibilityView,
)
    requires
        makes(a, g, x),
        makes(b, h, y),
        x.id == y.id,
        claimed_once(a, x.id),
        claimed_once(b, x.id),
    ensures
        has_entry(a, b, ElementKind::Responsibility, None, x.id) <==> !(g == h && read_as(x.title)
            == read_as(y.title) && x.statement == y.statement && directive_lines(x.directives)
            == directive_lines(y.directives) && joined(x.cites, ", "@) == joined(y.cites, ", "@)),
        forall|e: ElementChangeView| #[trigger]
            is_entry(a, b, ElementKind::Responsibility, None, x.id, e) ==> {
                &&& e.owner_id == Some(h)
                &&& e.label == y.statement
                &&& e.from is None
                &&& e.to is None
                &&& forall|ch: ChangeView| #[trigger]
                    e.changes.contains(ch) <==> claim_change(g, x, h, y, ch)
            },
{
    lemma_claim_at(a, g, x);
    lemma_claim_at(b, h, y);
    lemma_entry(a, b, ElementKind::Responsibility, None, x.id);
    let p = OwnedRespView { owner_id: g, resp: x };
    let q = OwnedRespView { owner_id: h, resp: y };
    let cs = resp_changes(p, q);
    let one = ChangeView::Moved { from: Some(g), to: Some(h) };
    let c0: Seq<ChangeView> = if g != h {
        seq![one]
    } else {
        Seq::empty()
    };
    let (t, u) = (read_as(x.title), read_as(y.title));
    let (d, e) = (directive_lines(x.directives), directive_lines(y.directives));
    let (v, w) = (joined(x.cites, ", "@), joined(y.cites, ", "@));
    let c1 = reworded(c0, "title"@, t, u);
    let c2 = reworded(c1, "statement"@, x.statement, y.statement);
    let c3 = reworded(c2, "directives"@, d, e);
    assert(cs == reworded(c3, "cites"@, v, w));
    assert forall|ch: ChangeView| #[trigger] cs.contains(ch) <==> claim_change(g, x, h, y, ch) by {
        lemma_lone(c0, g != h, one, ch);
        lemma_reworded_has(c0, "title"@, t, u, ch);
        lemma_reworded_has(c1, "statement"@, x.statement, y.statement, ch);
        lemma_reworded_has(c2, "directives"@, d, e, ch);
        lemma_reworded_has(c3, "cites"@, v, w, ch);
    }
    if cs.len() > 0 {
        assert(cs.contains(cs[0]));
        assert(claim_change(g, x, h, y, cs[0]));
    } else {
        lemma_nothing(cs, one);
        lemma_none_told(cs, "title"@, t, u);
        lemma_none_told(cs, "statement"@, x.statement, y.statement);
        lemma_none_told(cs, "directives"@, d, e);
        lemma_none_told(cs, "cites"@, v, w);
    }
}

// ---- properties -------------------------------------------------------------------------

proof fn lemma_property_at(ns: Seq<NodeView>, i: int, k: int)
    requires
        names_differ::<Node>(ns),
        0 <= i < ns.len(),
        names_differ::<SchemaProperty>(ns[i].properties),
        0 <= k < ns[i].properties.len(),
    ensures
        lookup(inner(prop_index(ns), ns[i].id), ns[i].properties[k].label) == Some(
            OwnedPropView { owner_id: ns[i].id, prop: ns[i].properties[k] },
        ),
{
    lemma_prop_index_at(ns, i);
    lemma_with_props(ns[i].id, ns[i].properties, ns[i].properties[k].label);
    assert(ns[i].properties[k].label == ns[i].properties[k].label);
}

/// A property that a node has in both layers is in the plan exactly where its description
/// differs. Its entry names its owner, goes by its label, and holds that change alone.
pub proof fn law_a_changed_property_is_planned(
    a: ScryModelView,
    b: ScryModelView,
    i: int,
    k: int,
    j: int,
    l: int,
)
    requires
        names_differ::<Node>(a.nodes),
        names_differ::<Node>(b.nodes),
        0 <= i < a.nodes.len(),
        0 <= j < b.nodes.len(),
        a.nodes[i].id == b.nodes[j].id,
        names_differ::<SchemaProperty>(a.nodes[i].properties),
        names_differ::<SchemaProperty>(b.nodes[j].properties),
        0 <= k < a.nodes[i].properties.len(),
        0 <= l < b.nodes[j].properties.len(),
        a.nodes[i].properties[k].label == b.nodes[j].properties[l].label,
    ensures
        ({
            let (x, y) = (a.nodes[i].properties[k], b.nodes[j].properties[l]);
            let owner = Some(a.nodes[i].id);
            &&& has_entry(a, b, ElementKind::Property, owner, x.label) <==> x.description
                != y.description
            &&& forall|e: ElementChangeView| #[trigger]
                is_entry(a, b, ElementKind::Property, owner, x.label, e) ==> {
                    &&& e.label == x.label
                    &&& e.from is None
                    &&& e.to is None
                    &&& e.changes == seq![
                        ChangeView::Reworded {
                            field: "description"@,
                            from: x.description,
                            to: y.description,
                        },
                    ]
                }
        }),
{
    let (x, y) = (a.nodes[i].properties[k], b.nodes[j].properties[l]);
    let owner = Some(a.nodes[i].id);
    lemma_property_at(a.nodes, i, k);
    lemma_property_at(b.nodes, j, l);
    lemma_entry(a, b, ElementKind::Property, owner, x.label);
    let cs = reworded(Seq::empty(), "description"@, x.description, y.description);
    if x.description != y.description {
        assert(cs =~= seq![
            ChangeView::Reworded {
                field: "description"@,
                from: x.description,
                to: y.description,
            },
        ]);
    }
}

// ---- what one layer alone has -----------------------------------------------------------

proof fn lemma_there(
    m: ScryModelView,
    kind: ElementKind,
    owner: Option<Seq<char>>,
    id: Seq<char>,
)
    ensures
        match kind {
            ElementKind::Node => lookup(node_index(m.nodes), id) is Some == has_element(
                m,
                kind,
                owner,
                id,
            ),
            ElementKind::Link => lookup(link_index(m.links), id) is Some == has_element(
                m,
                kind,
                owner,
                id,
            ),
            ElementKind::Group => lookup(group_index(m.groups), id) is Some == has_element(
                m,
                kind,
                owner,
                id,
            ),
            ElementKind::Responsibility => lookup(claim_index(m), id) is Some ==> has_element(
                m,
                kind,
                owner,
                id,
            ),
            ElementKind::Property => owner is Some ==> lookup(
                inner(prop_index(m.nodes), owner->0),
                id,
            ) is Some == has_element(m, kind, owner, id),
        },
{
    match kind {
        ElementKind::Node => lemma_node_index_names(m.nodes, id),
        ElementKind::Link => lemma_link_index_names(m.links, id),
        ElementKind::Group => lemma_group_index_names(m.groups, id),
        ElementKind::Responsibility => {
            if !has_element(m, kind, owner, id) {
                lemma_node_claims_none(m.nodes, id);
                lemma_group_claims_none(node_claims(m.nodes), m.groups, id);
            }
        },
        ElementKind::Property => {
            if owner is Some {
                crate::abandon_laws::lemma_property_looked_up(m.nodes, owner->0, id);
            }
        },
    }
}

proof fn lemma_claim_there(m: ScryModelView, id: Seq<char>)
    requires
        has_element(m, ElementKind::Responsibility, None, id),
    ensures
        lookup(claim_index(m), id) is Some,
{
    crate::revert_laws::lemma_claim_index_names(m, id);
}

/// An element of either layer alone is in the plan: as added where the plan alone has it, as
/// deleted where committed alone does, with no other change. One that neither has is not.
pub proof fn law_additions_and_deletions_are_planned(
    a: ScryModelView,
    b: ScryModelView,
    kind: ElementKind,
    owner: Option<Seq<char>>,
    id: Seq<char>,
)
    requires
        kind == ElementKind::Property <==> owner is Some,
    ensures
        ({
            let was = has_element(a, kind, owner, id);
            let is_now = has_element(b, kind, owner, id);
            &&& !was && !is_now ==> !has_entry(a, b, kind, owner, id)
            &&& was != is_now ==> has_entry(a, b, kind, owner, id)
            &&& was != is_now ==> forall|e: ElementChangeView| #[trigger]
                is_entry(a, b, kind, owner, id, e) ==> e.changes == seq![
                    if is_now {
                        ChangeView::Added
                    } else {
                        ChangeView::Deleted
                    },
                ]
        }),
{
    lemma_entry(a, b, kind, owner, id);
    lemma_there(a, kind, owner, id);
    lemma_there(b, kind, owner, id);
    if kind == ElementKind::Responsibility {
        if has_element(a, kind, owner, id) {
            lemma_claim_there(a, id);
        }
        if has_element(b, kind, owner, id) {
            lemma_claim_there(b, id);
        }
    }
}

// ---- the queue --------------------------------------------------------------------------

/// Is the entry on something that awaits a verdict in the plan: a node, a claim wherever it is
/// made, or a property of its owner that is marked as vagrant?
pub open spec fn awaits(p: ScryModelView, e: ElementChangeView) -> bool {
    match e.kind {
        ElementKind::Node => exists|i: int|
            0 <= i < p.nodes.len() && (#[trigger] p.nodes[i]).id == e.id && p.nodes[i].vagrant
                == Some(true),
        ElementKind::Responsibility => (exists|i: int, k: int|
            #![trigger p.nodes[i].responsibilities[k]]
            0 <= i < p.nodes.len() && 0 <= k < p.nodes[i].responsibilities.len()
                && p.nodes[i].responsibilities[k].id == e.id
                && p.nodes[i].responsibilities[k].vagrant == Some(true)) || (exists|i: int, k: int|
            #![trigger p.groups[i].responsibilities[k]]
            0 <= i < p.groups.len() && 0 <= k < p.groups[i].responsibilities.len()
                && p.groups[i].responsibilities[k].id == e.id
                && p.groups[i].responsibilities[k].vagrant == Some(true)),
        ElementKind::Property => exists|i: int, k: int|
            #![trigger p.nodes[i].properties[k]]
            0 <= i < p.nodes.len() && e.owner_id == Some(p.nodes[i].id) && 0 <= k
                < p.nodes[i].properties.len() && p.nodes[i].properties[k].label == e.id
                && p.nodes[i].properties[k].vagrant == Some(true),
        ElementKind::Link => false,
        ElementKind::Group => false,
    }
}

proof fn lemma_awaits(p: ScryModelView, e: ElementChangeView)
    ensures
        crate::diff::awaits_verdict(p, e) == awaits(p, e),
{
    match e.kind {
        ElementKind::Responsibility => {
            if exists|i: int|
                0 <= i < p.nodes.len() && crate::diff::vagrant_claim(
                    (#[trigger] p.nodes[i]).responsibilities,
                    e.id,
                ) {
                let i = choose|i: int|
                    0 <= i < p.nodes.len() && crate::diff::vagrant_claim(
                        (#[trigger] p.nodes[i]).responsibilities,
                        e.id,
                    );
                let rs = p.nodes[i].responsibilities;
                let k = choose|k: int|
                    0 <= k < rs.len() && (#[trigger] rs[k]).id == e.id && rs[k].vagrant == Some(true);
                assert(p.nodes[i].responsibilities[k].id == e.id);
            }
            if exists|i: int|
                0 <= i < p.groups.len() && crate::diff::vagrant_claim(
                    (#[trigger] p.groups[i]).responsibilities,
                    e.id,
                ) {
                let i = choose|i: int|
                    0 <= i < p.groups.len() && crate::diff::vagrant_claim(
                        (#[trigger] p.groups[i]).responsibilities,
                        e.id,
                    );
                let rs = p.groups[i].responsibilities;
                let k = choose|k: int|
                    0 <= k < rs.len() && (#[trigger] rs[k]).id == e.id && rs[k].vagrant == Some(true);
                assert(p.groups[i].responsibilities[k].id == e.id);
            }
            if exists|i: int, k: int|
                #![trigger p.nodes[i].responsibilities[k]]
                0 <= i < p.nodes.len() && 0 <= k < p.nodes[i].responsibilities.len()
                    && p.nodes[i].responsibilities[k].id == e.id
                    && p.nodes[i].responsibilities[k].vagrant == Some(true) {
                let (i, k) = choose|i: int, k: int|
                    #![trigger p.nodes[i].responsibilities[k]]
                    0 <= i < p.nodes.len() && 0 <= k < p.nodes[i].responsibilities.len()
                        && p.nodes[i].responsibilities[k].id == e.id
                        && p.nodes[i].responsibilities[k].vagrant == Some(true);
                assert(crate::diff::vagrant_claim(p.nodes[i].responsibilities, e.id));
            }
            if exists|i: int, k: int|
                #![trigger p.groups[i].responsibilities[k]]
                0 <= i < p.groups.len() && 0 <= k < p.groups[i].responsibilities.len()
                    && p.groups[i].responsibilities[k].id == e.id
                    && p.groups[i].responsibilities[k].vagrant == Some(true) {
                let (i, k) = choose|i: int, k: int|
                    #![trigger p.groups[i].responsibilities[k]]
                    0 <= i < p.groups.len() && 0 <= k < p.groups[i].responsibilities.len()
                        && p.groups[i].responsibilities[k].id == e.id
                        && p.groups[i].responsibilities[k].vagrant == Some(true);
                assert(crate::diff::vagrant_claim(p.groups[i].responsibilities, e.id));
            }
        },
        ElementKind::Property => {
            if crate::diff::awaits_verdict(p, e) {
                let i = choose|i: int|
                    0 <= i < p.nodes.len() && (#[trigger] p.nodes[i]).id == e.owner_id->0
                        && crate::diff::vagrant_prop(p.nodes[i].properties, e.id);
                let ps = p.nodes[i].properties;
                let k = choose|k: int|
                    0 <= k < ps.len() && (#[trigger] ps[k]).label == e.id && ps[k].vagrant == Some(
                        true,
                    );
                assert(p.nodes[i].properties[k].label == e.id);
            }
            if awaits(p, e) {
                let (i, k) = choose|i: int, k: int|
                    #![trigger p.nodes[i].properties[k]]
                    0 <= i < p.nodes.len() && e.owner_id == Some(p.nodes[i].id) && 0 <= k
                        < p.nodes[i].properties.len() && p.nodes[i].properties[k].label == e.id
                        && p.nodes[i].properties[k].vagrant == Some(true);
                assert(crate::diff::vagrant_prop(p.nodes[i].properties, e.id));
            }
        },
        _ => {},
    }
}

/// The work queue is the plan without what awaits a verdict, in order.
pub proof fn law_the_queue_is_what_awaits_no_verdict(
    p: ScryModelView,
    cs: Seq<ElementChangeView>,
)
    ensures
        crate::diff::not_vagrant(p, cs) == cs.filter(|e: ElementChangeView| !awaits(p, e)),
    decreases cs.len(),
{
    reveal(Seq::filter);
    if cs.len() > 0 {
        law_the_queue_is_what_awaits_no_verdict(p, cs.drop_last());
        lemma_awaits(p, cs.last());
    }
}

/// What is not set aside is the plan without the entries under one of the keys, in order.
pub proof fn law_the_plan_without_what_is_set_aside(
    cs: Seq<ElementChangeView>,
    binned: Seq<Seq<char>>,
)
    ensures
        crate::diff::not_binned(cs, binned) == cs.filter(
            |e: ElementChangeView| !binned.contains(crate::changes::key_of(e)),
        ),
    decreases cs.len(),
{
    reveal(Seq::filter);
    if cs.len() > 0 {
        law_the_plan_without_what_is_set_aside(cs.drop_last(), binned);
    }
}

// ---- carriers ---------------------------------------------------------------------------

/// Is the id that of a group in either layer?
pub open spec fn is_a_group(c: Carried, id: Seq<char>) -> bool {
    (exists|i: int| 0 <= i < c.planned.groups.len() && (#[trigger] c.planned.groups[i]).id == id)
        || (exists|i: int|
        0 <= i < c.committed.groups.len() && (#[trigger] c.committed.groups[i]).id == id)
}

/// Is it an entry on a claim or a property of `id` that is not a mere finding of drift there?
pub open spec fn is_content(
    e: ElementChangeView,
    id: Seq<char>,
    claims: Seq<ResponsibilityView>,
    props: Seq<SchemaPropertyView>,
) -> bool {
    ||| e.kind == ElementKind::Responsibility && e.owner_id == Some(id) && forall|k: int|
        0 <= k < claims.len() && (#[trigger] claims[k]).id == e.id ==> claims[k].vagrant != Some(
            true,
        )
    ||| e.kind == ElementKind::Property && e.owner_id == Some(id) && forall|k: int|
        0 <= k < props.len() && (#[trigger] props[k]).label == e.id ==> props[k].vagrant != Some(
            true,
        )
}

proof fn lemma_content(
    c: Carried,
    e: ElementChangeView,
    id: Seq<char>,
    claims: Seq<ResponsibilityView>,
    props: Seq<SchemaPropertyView>,
)
    ensures
        c.is_real_content(e, id, claims, props) == is_content(e, id, claims, props),
{
    if c.is_real_content(e, id, claims, props) {
        if e.kind == ElementKind::Responsibility {
            assert forall|k: int| 0 <= k < claims.len() && (#[trigger] claims[k]).id == e.id implies claims[k].vagrant
                != Some(true) by {
                assert(!crate::diff::vagrant_claim(claims, e.id));
            }
        } else {
            assert forall|k: int| 0 <= k < props.len() && (#[trigger] props[k]).label == e.id implies props[k].vagrant
                != Some(true) by {
                assert(!crate::diff::vagrant_prop(props, e.id));
            }
        }
    }
    if is_content(e, id, claims, props) {
        if e.kind == ElementKind::Responsibility && crate::diff::vagrant_claim(claims, e.id) {
            let k = choose|k: int|
                0 <= k < claims.len() && (#[trigger] claims[k]).id == e.id && claims[k].vagrant
                    == Some(true);
            assert(claims[k].vagrant != Some(true));
        }
        if e.kind == ElementKind::Property && crate::diff::vagrant_prop(props, e.id) {
            let k = choose|k: int|
                0 <= k < props.len() && (#[trigger] props[k]).label == e.id && props[k].vagrant
                    == Some(true);
            assert(props[k].vagrant != Some(true));
        }
    }
}

proof fn lemma_a_group(c: Carried, id: Seq<char>)
    ensures
        c.is_group(id) == is_a_group(c, id),
{
}

/// A node that the plan has and that is no group carries a change exactly where the plan has an
/// entry on it and it does not await a verdict, an entry on a claim or property of it that is no
/// finding of drift, or an entry on a link that it is the source of, as planned or else as
/// committed.
pub proof fn law_which_nodes_carry_a_change(c: Carried, i: int)
    requires
        names_differ::<Node>(c.planned.nodes),
        0 <= i < c.planned.nodes.len(),
        !is_a_group(c, c.planned.nodes[i].id),
    ensures
        ({
            let n = c.planned.nodes[i];
            c.nodes().contains(n.id) <==> exists|q: int|
                0 <= q < c.plan.len() && ({
                    let e = #[trigger] c.plan[q];
                    ||| e.kind == ElementKind::Node && e.id == n.id && e.changes.len() > 0
                        && n.vagrant != Some(true)
                    ||| is_content(e, n.id, n.responsibilities, n.properties)
                    ||| e.kind == ElementKind::Link && c.link_source(e) == Some(n.id)
                })
        }),
{
    let n = c.planned.nodes[i];
    lemma_a_group(c, n.id);
    assert forall|j: int| i < j < c.planned.nodes.len() implies (
    #[trigger] c.planned.nodes[j]).id != n.id by {
        assert(Node::name_of(c.planned.nodes[j]) != Node::name_of(c.planned.nodes[i]));
    }
    crate::model::lemma_last_node(c.planned.nodes, n.id, i);
    assert forall|q: int| 0 <= q < c.plan.len() implies c.is_real_content(
        #[trigger] c.plan[q],
        n.id,
        n.responsibilities,
        n.properties,
    ) == is_content(c.plan[q], n.id, n.responsibilities, n.properties) by {
        lemma_content(c, c.plan[q], n.id, n.responsibilities, n.properties);
    }
    if c.nodes().contains(n.id) {
        if exists|q: int|
            0 <= q < c.plan.len() && c.link_source(#[trigger] c.plan[q]) == Some(n.id) {
            let q = choose|q: int|
                0 <= q < c.plan.len() && c.link_source(#[trigger] c.plan[q]) == Some(n.id);
            assert(c.plan[q].kind == ElementKind::Link);
        } else if n.vagrant != Some(true) && c.own_change(ElementKind::Node, n.id) {
            let q = choose|q: int|
                0 <= q < c.plan.len() && (#[trigger] c.plan[q]).kind == ElementKind::Node
                    && c.plan[q].id == n.id && c.plan[q].changes.len() > 0;
            assert(c.plan[q].id == n.id);
        } else {
            let q = choose|q: int|
                0 <= q < c.plan.len() && c.is_real_content(
                    #[trigger] c.plan[q],
                    n.id,
                    n.responsibilities,
                    n.properties,
                );
            assert(is_content(c.plan[q], n.id, n.responsibilities, n.properties));
        }
    }
    if exists|q: int|
        0 <= q < c.plan.len() && ({
            let e = #[trigger] c.plan[q];
            ||| e.kind == ElementKind::Node && e.id == n.id && e.changes.len() > 0 && n.vagrant
                != Some(true)
            ||| is_content(e, n.id, n.responsibilities, n.properties)
            ||| e.kind == ElementKind::Link && c.link_source(e) == Some(n.id)
        }) {
        let q = choose|q: int|
            0 <= q < c.plan.len() && ({
                let e = #[trigger] c.plan[q];
                ||| e.kind == ElementKind::Node && e.id == n.id && e.changes.len() > 0 && n.vagrant
                    != Some(true)
                ||| is_content(e, n.id, n.responsibilities, n.properties)
                ||| e.kind == ElementKind::Link && c.link_source(e) == Some(n.id)
            });
        let e = c.plan[q];
        assert(c.points_at_node(c.plan[q], n.id));
        if is_content(e, n.id, n.responsibilities, n.properties) {
            assert(c.real_content(n.id, n.responsibilities, n.properties));
        } else if e.kind == ElementKind::Node {
            assert(c.own_change(ElementKind::Node, n.id));
        } else {
            assert(c.link_source(c.plan[q]) == Some(n.id));
        }
        assert(c.node_carries(n.id));
    }
}

/// A node that only committed has and that is no group carries a change exactly where the plan has
/// an entry on it, on anything of it, or on a link that it is the source of.
pub proof fn law_which_dropped_nodes_carry_a_change(c: Carried, id: Seq<char>)
    requires
        !has_named::<Node>(c.planned.nodes, id),
        !is_a_group(c, id),
    ensures
        c.nodes().contains(id) <==> exists|q: int|
            0 <= q < c.plan.len() && ({
                let e = #[trigger] c.plan[q];
                ||| e.kind == ElementKind::Node && e.id == id && e.changes.len() > 0
                ||| (e.kind == ElementKind::Responsibility || e.kind == ElementKind::Property)
                    && e.owner_id == Some(id)
                ||| e.kind == ElementKind::Link && c.link_source(e) == Some(id)
            }),
{
    lemma_a_group(c, id);
    crate::model::lemma_lookups(c.planned.nodes, id);
    if crate::model::has_node(c.planned.nodes, id) {
        let k = choose|k: int|
            0 <= k < c.planned.nodes.len() && (#[trigger] c.planned.nodes[k]).id == id;
        assert(Node::name_of(c.planned.nodes[k]) == id);
    }
    let none = Seq::<ResponsibilityView>::empty();
    let bare = Seq::<SchemaPropertyView>::empty();
    assert forall|q: int| 0 <= q < c.plan.len() implies c.is_real_content(
        #[trigger] c.plan[q],
        id,
        none,
        bare,
    ) == is_content(c.plan[q], id, none, bare) by {
        lemma_content(c, c.plan[q], id, none, bare);
    }
    if c.nodes().contains(id) {
        if exists|q: int| 0 <= q < c.plan.len() && c.link_source(#[trigger] c.plan[q]) == Some(id) {
            let q = choose|q: int|
                0 <= q < c.plan.len() && c.link_source(#[trigger] c.plan[q]) == Some(id);
            assert(c.plan[q].kind == ElementKind::Link);
        } else if c.own_change(ElementKind::Node, id) {
            let q = choose|q: int|
                0 <= q < c.plan.len() && (#[trigger] c.plan[q]).kind == ElementKind::Node
                    && c.plan[q].id == id && c.plan[q].changes.len() > 0;
            assert(c.plan[q].id == id);
        } else {
            let q = choose|q: int|
                0 <= q < c.plan.len() && c.is_real_content(#[trigger] c.plan[q], id, none, bare);
            assert(is_content(c.plan[q], id, none, bare));
        }
    }
    if exists|q: int|
        0 <= q < c.plan.len() && ({
            let e = #[trigger] c.plan[q];
            ||| e.kind == ElementKind::Node && e.id == id && e.changes.len() > 0
            ||| (e.kind == ElementKind::Responsibility || e.kind == ElementKind::Property)
                && e.owner_id == Some(id)
            ||| e.kind == ElementKind::Link && c.link_source(e) == Some(id)
        }) {
        let q = choose|q: int|
            0 <= q < c.plan.len() && ({
                let e = #[trigger] c.plan[q];
                ||| e.kind == ElementKind::Node && e.id == id && e.changes.len() > 0
                ||| (e.kind == ElementKind::Responsibility || e.kind == ElementKind::Property)
                    && e.owner_id == Some(id)
                ||| e.kind == ElementKind::Link && c.link_source(e) == Some(id)
            });
        let e = c.plan[q];
        assert(c.points_at_node(c.plan[q], id));
        if e.kind == ElementKind::Node {
            assert(c.own_change(ElementKind::Node, id));
        } else if e.kind == ElementKind::Link {
            assert(c.link_source(c.plan[q]) == Some(id));
        } else {
            assert(is_content(e, id, none, bare));
            assert(c.real_content(id, none, bare));
        }
        assert(c.node_carries(id));
    }
}

/// A group that the plan has carries a change exactly where the plan has an entry on it or on a
/// claim of it that is no finding of drift, or on a property that names it.
pub proof fn law_which_groups_carry_a_change(c: Carried, i: int)
    requires
        names_differ::<Group>(c.planned.groups),
        0 <= i < c.planned.groups.len(),
    ensures
        ({
            let g = c.planned.groups[i];
            c.groups().contains(g.id) <==> exists|q: int|
                0 <= q < c.plan.len() && ({
                    let e = #[trigger] c.plan[q];
                    ||| e.kind == ElementKind::Group && e.id == g.id && e.changes.len() > 0
                    ||| is_content(e, g.id, g.responsibilities, Seq::empty())
                })
        }),
{
    let g = c.planned.groups[i];
    let bare = Seq::<SchemaPropertyView>::empty();
    assert(is_a_group(c, g.id)) by {
        assert(c.planned.groups[i].id == g.id);
    }
    lemma_a_group(c, g.id);
    lemma_group_index_at(c.planned.groups, i);
    assert forall|q: int| 0 <= q < c.plan.len() implies c.is_real_content(
        #[trigger] c.plan[q],
        g.id,
        g.responsibilities,
        bare,
    ) == is_content(c.plan[q], g.id, g.responsibilities, bare) by {
        lemma_content(c, c.plan[q], g.id, g.responsibilities, bare);
    }
    if c.groups().contains(g.id) {
        if c.own_change(ElementKind::Group, g.id) {
            let q = choose|q: int|
                0 <= q < c.plan.len() && (#[trigger] c.plan[q]).kind == ElementKind::Group
                    && c.plan[q].id == g.id && c.plan[q].changes.len() > 0;
            assert(c.plan[q].id == g.id);
        } else {
            let q = choose|q: int|
                0 <= q < c.plan.len() && c.is_real_content(
                    #[trigger] c.plan[q],
                    g.id,
                    g.responsibilities,
                    bare,
                );
            assert(is_content(c.plan[q], g.id, g.responsibilities, bare));
        }
    }
    if exists|q: int|
        0 <= q < c.plan.len() && ({
            let e = #[trigger] c.plan[q];
            ||| e.kind == ElementKind::Group && e.id == g.id && e.changes.len() > 0
            ||| is_content(e, g.id, g.responsibilities, bare)
        }) {
        let q = choose|q: int|
            0 <= q < c.plan.len() && ({
                let e = #[trigger] c.plan[q];
                ||| e.kind == ElementKind::Group && e.id == g.id && e.changes.len() > 0
                ||| is_content(e, g.id, g.responsibilities, bare)
            });
        let e = c.plan[q];
        assert(c.points_at_group(c.plan[q], g.id));
        if e.kind == ElementKind::Group {
            assert(c.own_change(ElementKind::Group, g.id));
        } else {
            assert(c.real_content(g.id, g.responsibilities, bare));
        }
        assert(c.group_carries(g.id));
    }
}

/// A link's entry is carried by the source it has as planned, or else as committed.
pub proof fn law_links_are_carried_by_their_source(c: Carried, e: ElementChangeView, i: int)
    requires
        e.kind == ElementKind::Link,
        names_differ::<Link>(c.planned.links),
        names_differ::<Link>(c.committed.links),
    ensures
        0 <= i < c.planned.links.len() && c.planned.links[i].id == e.id ==> c.link_source(e) == Some(
            c.planned.links[i].src,
        ),
        !has_named::<Link>(c.planned.links, e.id) && 0 <= i < c.committed.links.len()
            && c.committed.links[i].id == e.id ==> c.link_source(e) == Some(
            c.committed.links[i].src,
        ),
{
    lemma_link_index_names(c.planned.links, e.id);
    if 0 <= i < c.planned.links.len() {
        lemma_link_index_at(c.planned.links, i);
    }
    if 0 <= i < c.committed.links.len() {
        lemma_link_index_at(c.committed.links, i);
    }
}

// ---- the order of a plan ----------------------------------------------------------------

/// What an entry on something that one layer alone has is told by: a node and a group by its name,
/// a link by its label and its ends, a claim by its statement and its host, a property by its label
/// and its owner, as the layer that has it has them.
pub proof fn law_how_additions_and_deletions_are_told(
    a: ScryModelView,
    b: ScryModelView,
    i: int,
    e: ElementChangeView,
)
    requires
        diff_of(a, b).contains(e),
    ensures
        e.kind == ElementKind::Node && names_differ::<Node>(b.nodes) && 0 <= i < b.nodes.len()
            && b.nodes[i].id == e.id ==> e.label == b.nodes[i].name,
        e.kind == ElementKind::Node && names_differ::<Node>(a.nodes) && 0 <= i < a.nodes.len()
            && a.nodes[i].id == e.id && !has_named::<Node>(b.nodes, e.id) ==> e.label
            == a.nodes[i].name,
        e.kind == ElementKind::Link && names_differ::<Link>(b.links) && 0 <= i < b.links.len()
            && b.links[i].id == e.id ==> e.label == b.links[i].label && e.from == Some(
            b.links[i].src,
        ) && e.to == Some(b.links[i].dst),
        e.kind == ElementKind::Link && names_differ::<Link>(a.links) && 0 <= i < a.links.len()
            && a.links[i].id == e.id && !has_named::<Link>(b.links, e.id) ==> e.label
            == a.links[i].label && e.from == Some(a.links[i].src) && e.to == Some(a.links[i].dst),
        e.kind == ElementKind::Group && names_differ::<Group>(b.groups) && 0 <= i < b.groups.len()
            && b.groups[i].id == e.id ==> e.label == b.groups[i].name,
        e.kind == ElementKind::Group && names_differ::<Group>(a.groups) && 0 <= i < a.groups.len()
            && a.groups[i].id == e.id && !has_named::<Group>(b.groups, e.id) ==> e.label
            == a.groups[i].name,
        e.kind == ElementKind::Property ==> e.label == e.id && e.owner_id is Some,
        e.kind != ElementKind::Link ==> e.from is None && e.to is None,
{
    law_a_plan_is_made_element_by_element(a, b, e);
    lemma_node_index_names(b.nodes, e.id);
    lemma_link_index_names(b.links, e.id);
    lemma_group_index_names(b.groups, e.id);
    if names_differ::<Node>(b.nodes) && 0 <= i < b.nodes.len() {
        lemma_node_index_at(b.nodes, i);
    }
    if names_differ::<Node>(a.nodes) && 0 <= i < a.nodes.len() {
        lemma_node_index_at(a.nodes, i);
    }
    if names_differ::<Link>(b.links) && 0 <= i < b.links.len() {
        lemma_link_index_at(b.links, i);
    }
    if names_differ::<Link>(a.links) && 0 <= i < a.links.len() {
        lemma_link_index_at(a.links, i);
    }
    if names_differ::<Group>(b.groups) && 0 <= i < b.groups.len() {
        lemma_group_index_at(b.groups, i);
    }
    if names_differ::<Group>(a.groups) && 0 <= i < a.groups.len() {
        lemma_group_index_at(a.groups, i);
    }
}

/// An added claim is told by its planned statement and host, a deleted one by its committed ones.
pub proof fn law_how_claims_are_told(
    a: ScryModelView,
    b: ScryModelView,
    h: Seq<char>,
    r: ResponsibilityView,
    e: ElementChangeView,
)
    requires
        is_entry(a, b, ElementKind::Responsibility, None, r.id, e),
    ensures
        makes(b, h, r) && claimed_once(b, r.id) ==> e.owner_id == Some(h) && e.label == r.statement,
        makes(a, h, r) && claimed_once(a, r.id) && !has_element(
            b,
            ElementKind::Responsibility,
            None,
            r.id,
        ) ==> e.owner_id == Some(h) && e.label == r.statement,
{
    lemma_entry(a, b, ElementKind::Responsibility, None, r.id);
    lemma_there(b, ElementKind::Responsibility, None, r.id);
    if makes(b, h, r) && claimed_once(b, r.id) {
        lemma_claim_at(b, h, r);
    }
    if makes(a, h, r) && claimed_once(a, r.id) {
        lemma_claim_at(a, h, r);
    }
}

} // verus!
