//! What the prints of a basis are, and how it is told what has moved.

use crate::basis::{
    asked_for, change_json, claim_anywhere, claim_in_groups, claim_in_nodes, cut, described,
    directive_print, flat_state, flattened, inherited_text, moved, moved_among, outline_print,
    owned_in, pending_print, relevant_entries, sep, with_claims, with_group_claims, with_groups,
    with_node_claims, with_nodes, with_outline, with_outlines, with_pending, DifferenceView,
    ReadSetView, ScopeView,
};
use crate::changes::key_of;
use crate::diff::{diff_of, not_vagrant, ChangeView, ElementChangeView};
use crate::json::{json_list, json_texts};
use crate::model::{
    claim_of, directive_lines, group_claim, node_claim, Group, GroupView, InheritedDirectivesView,
    Node, NodeView, ResponsibilityView, ScryModelView,
};
use crate::named::{first, lemma_place_of};
use crate::set_laws::{belongs, lemma_behind_mark, lemma_marks_apart};
use crate::signoff_laws::lemma_lists_apart;
use crate::text::{ascending, first_place, is_white, joined, lemma_ascending_of, lemma_first_place};
use crate::text_laws::lemma_between;
use vstd::prelude::*;
use vstd::string::*;

verus! {

// ---- what the prints are of -------------------------------------------------------------

/// Are the prints that are of no claim the same?
spec fn same_but_claims(es: Map<Seq<char>, Seq<char>>, fs: Map<Seq<char>, Seq<char>>) -> bool {
    forall|x: Seq<char>|
        #![trigger fs.contains_key("d:"@ + x)]
        #![trigger fs.contains_key("o:"@ + x)]
        #![trigger fs.contains_key("e:"@ + x)]
        {
            &&& es.contains_key("d:"@ + x) == fs.contains_key("d:"@ + x)
            &&& es.contains_key("o:"@ + x) == fs.contains_key("o:"@ + x)
            &&& es.contains_key("e:"@ + x) == fs.contains_key("e:"@ + x)
            &&& es.contains_key("d:"@ + x) ==> es["d:"@ + x] == fs["d:"@ + x]
            &&& es.contains_key("o:"@ + x) ==> es["o:"@ + x] == fs["o:"@ + x]
            &&& es.contains_key("e:"@ + x) ==> es["e:"@ + x] == fs["e:"@ + x]
        }
}

proof fn lemma_claims_beside(
    layer: Seq<char>,
    host: Seq<char>,
    rs: Seq<ResponsibilityView>,
    es: Map<Seq<char>, Seq<char>>,
)
    requires
        layer == "c"@ || layer == "p"@,
    ensures
        same_but_claims(es, with_claims(layer, host, rs, es)),
    decreases rs.len(),
{
    if rs.len() > 0 {
        lemma_claims_beside(layer, host, rs.drop_last(), es);
        let before = with_claims(layer, host, rs.drop_last(), es);
        let fs = with_claims(layer, host, rs, es);
        let k = layer + ":"@ + rs.last().id;
        assert forall|x: Seq<char>|
            #![trigger fs.contains_key("d:"@ + x)]
            #![trigger fs.contains_key("o:"@ + x)]
            #![trigger fs.contains_key("e:"@ + x)]
            {
                &&& es.contains_key("d:"@ + x) == fs.contains_key("d:"@ + x)
                &&& es.contains_key("o:"@ + x) == fs.contains_key("o:"@ + x)
                &&& es.contains_key("e:"@ + x) == fs.contains_key("e:"@ + x)
                &&& es.contains_key("d:"@ + x) ==> es["d:"@ + x] == fs["d:"@ + x]
                &&& es.contains_key("o:"@ + x) ==> es["o:"@ + x] == fs["o:"@ + x]
                &&& es.contains_key("e:"@ + x) ==> es["e:"@ + x] == fs["e:"@ + x]
            } by {
            lemma_marks_apart(rs.last().id, x);
            assert(before.contains_key("d:"@ + x) == es.contains_key("d:"@ + x));
        }
    }
}

/// Are the prints of directives those of the nodes, and the prints of outlines those of what the
/// plan has of the outlined?
spec fn printed(
    c: ScryModelView,
    p: ScryModelView,
    nodes: Seq<Seq<char>>,
    outlined: spec_fn(Seq<char>) -> bool,
    es: Map<Seq<char>, Seq<char>>,
) -> bool {
    &&& forall|x: Seq<char>| #[trigger]
        es.contains_key("d:"@ + x) ==> nodes.contains(x) && es["d:"@ + x] == directive_print(
            c,
            p,
            x,
        )
    &&& forall|x: Seq<char>| #[trigger]
        es.contains_key("o:"@ + x) ==> outlined(x) && first::<Node>(p.nodes, x) is Some && es["o:"@
            + x] == outline_print(first::<Node>(p.nodes, x)->0)
    &&& forall|x: Seq<char>| !#[trigger] es.contains_key("e:"@ + x)
}

proof fn lemma_outline_step(
    c: ScryModelView,
    p: ScryModelView,
    nodes: Seq<Seq<char>>,
    outlined: spec_fn(Seq<char>) -> bool,
    id: Seq<char>,
    es: Map<Seq<char>, Seq<char>>,
)
    requires
        printed(c, p, nodes, outlined, es),
        outlined(id),
    ensures
        printed(c, p, nodes, outlined, with_outline(p, id, es)),
{
    let fs = with_outline(p, id, es);
    lemma_place_of::<Node>(p.nodes, id);
    assert forall|x: Seq<char>| #[trigger] fs.contains_key("d:"@ + x) implies nodes.contains(x)
        && fs["d:"@ + x] == directive_print(c, p, x) by {
        lemma_marks_apart(x, id);
        assert(es.contains_key("d:"@ + x));
    }
    assert forall|x: Seq<char>| #[trigger] fs.contains_key("o:"@ + x) implies outlined(x)
        && first::<Node>(p.nodes, x) is Some && fs["o:"@ + x] == outline_print(
        first::<Node>(p.nodes, x)->0,
    ) by {
        lemma_behind_mark("o:"@, x, id);
        if x != id {
            assert(es.contains_key("o:"@ + x));
        }
    }
    assert forall|x: Seq<char>| !#[trigger] fs.contains_key("e:"@ + x) by {
        lemma_marks_apart(id, x);
        assert(!es.contains_key("e:"@ + x));
    }
}

proof fn lemma_beside(
    c: ScryModelView,
    p: ScryModelView,
    nodes: Seq<Seq<char>>,
    outlined: spec_fn(Seq<char>) -> bool,
    es: Map<Seq<char>, Seq<char>>,
    fs: Map<Seq<char>, Seq<char>>,
)
    requires
        printed(c, p, nodes, outlined, es),
        same_but_claims(es, fs),
    ensures
        printed(c, p, nodes, outlined, fs),
{
    assert forall|x: Seq<char>| #[trigger] fs.contains_key("d:"@ + x) implies nodes.contains(x)
        && fs["d:"@ + x] == directive_print(c, p, x) by {
        assert(es.contains_key("d:"@ + x));
    }
    assert forall|x: Seq<char>| #[trigger] fs.contains_key("o:"@ + x) implies outlined(x)
        && first::<Node>(p.nodes, x) is Some && fs["o:"@ + x] == outline_print(
        first::<Node>(p.nodes, x)->0,
    ) by {
        assert(es.contains_key("o:"@ + x));
    }
    assert forall|x: Seq<char>| !#[trigger] fs.contains_key("e:"@ + x) by {
        assert(!es.contains_key("e:"@ + x));
    }
}

proof fn lemma_nodes_printed(
    c: ScryModelView,
    p: ScryModelView,
    nodes: Seq<Seq<char>>,
    outlined: spec_fn(Seq<char>) -> bool,
    ids: Seq<Seq<char>>,
)
    requires
        forall|k: int|
            0 <= k < ids.len() ==> nodes.contains(#[trigger] ids[k]) && outlined(ids[k]),
    ensures
        printed(c, p, nodes, outlined, with_nodes(c, p, ids, Map::empty())),
    decreases ids.len(),
{
    if ids.len() > 0 {
        let d = ids.drop_last();
        let id = ids.last();
        assert(ids[ids.len() - 1] == id);
        assert forall|k: int| 0 <= k < d.len() implies nodes.contains(#[trigger] d[k]) && outlined(
            d[k],
        ) by {
            assert(d[k] == ids[k]);
        }
        lemma_nodes_printed(c, p, nodes, outlined, d);
        let es = with_nodes(c, p, d, Map::empty());
        let e1 = es.insert("d:"@ + id, directive_print(c, p, id));
        assert(printed(c, p, nodes, outlined, e1)) by {
            assert forall|x: Seq<char>| #[trigger] e1.contains_key("d:"@ + x) implies nodes.contains(
                x,
            ) && e1["d:"@ + x] == directive_print(c, p, x) by {
                lemma_behind_mark("d:"@, x, id);
                if x != id {
                    assert(es.contains_key("d:"@ + x));
                }
            }
            assert forall|x: Seq<char>| #[trigger] e1.contains_key("o:"@ + x) implies outlined(x)
                && first::<Node>(p.nodes, x) is Some && e1["o:"@ + x] == outline_print(
                first::<Node>(p.nodes, x)->0,
            ) by {
                lemma_marks_apart(id, x);
                assert(es.contains_key("o:"@ + x));
            }
            assert forall|x: Seq<char>| !#[trigger] e1.contains_key("e:"@ + x) by {
                lemma_marks_apart(id, x);
                assert(!es.contains_key("e:"@ + x));
            }
        }
        let e2 = with_node_claims("c"@, c, id, e1);
        if first::<Node>(c.nodes, id) is Some {
            let n = first::<Node>(c.nodes, id)->0;
            lemma_claims_beside("c"@, n.id, n.responsibilities, e1);
        }
        assert(printed(c, p, nodes, outlined, e2)) by {
            if first::<Node>(c.nodes, id) is Some {
                lemma_beside(c, p, nodes, outlined, e1, e2);
            }
        }
        let e3 = with_node_claims("p"@, p, id, e2);
        if first::<Node>(p.nodes, id) is Some {
            let n = first::<Node>(p.nodes, id)->0;
            lemma_claims_beside("p"@, n.id, n.responsibilities, e2);
            lemma_beside(c, p, nodes, outlined, e2, e3);
        }
        lemma_outline_step(c, p, nodes, outlined, id, e3);
    }
}

proof fn lemma_groups_printed(
    c: ScryModelView,
    p: ScryModelView,
    nodes: Seq<Seq<char>>,
    outlined: spec_fn(Seq<char>) -> bool,
    ids: Seq<Seq<char>>,
    es: Map<Seq<char>, Seq<char>>,
)
    requires
        printed(c, p, nodes, outlined, es),
    ensures
        printed(c, p, nodes, outlined, with_groups(c, p, ids, es)),
    decreases ids.len(),
{
    if ids.len() > 0 {
        let id = ids.last();
        lemma_groups_printed(c, p, nodes, outlined, ids.drop_last(), es);
        let e1 = with_groups(c, p, ids.drop_last(), es);
        let e2 = with_group_claims("c"@, c, id, e1);
        if first::<Group>(c.groups, id) is Some {
            let g = first::<Group>(c.groups, id)->0;
            lemma_claims_beside("c"@, g.id, g.responsibilities, e1);
            lemma_beside(c, p, nodes, outlined, e1, e2);
        }
        let e3 = with_group_claims("p"@, p, id, e2);
        if first::<Group>(p.groups, id) is Some {
            let g = first::<Group>(p.groups, id)->0;
            lemma_claims_beside("p"@, g.id, g.responsibilities, e2);
            lemma_beside(c, p, nodes, outlined, e2, e3);
        }
    }
}

proof fn lemma_outlines_printed(
    c: ScryModelView,
    p: ScryModelView,
    nodes: Seq<Seq<char>>,
    outlined: spec_fn(Seq<char>) -> bool,
    ids: Seq<Seq<char>>,
    es: Map<Seq<char>, Seq<char>>,
)
    requires
        printed(c, p, nodes, outlined, es),
        forall|k: int| 0 <= k < ids.len() ==> outlined(#[trigger] ids[k]),
    ensures
        printed(c, p, nodes, outlined, with_outlines(p, ids, es)),
    decreases ids.len(),
{
    if ids.len() > 0 {
        let d = ids.drop_last();
        assert(ids[ids.len() - 1] == ids.last());
        assert forall|k: int| 0 <= k < d.len() implies outlined(#[trigger] d[k]) by {
            assert(d[k] == ids[k]);
        }
        lemma_outlines_printed(c, p, nodes, outlined, d, es);
        lemma_outline_step(c, p, nodes, outlined, ids.last(), with_outlines(p, d, es));
    }
}

/// Is the print of a pending entry that of an entry of the list which belongs to the scope?
pub open spec fn pending_shown(
    p: ScryModelView,
    s: ScopeView,
    chs: Seq<ElementChangeView>,
    x: Seq<char>,
    print: Seq<char>,
) -> bool {
    exists|i: int|
        0 <= i < chs.len() && key_of(#[trigger] chs[i]) == x && belongs(p, s, chs[i]) && print
            == pending_print(p, chs[i])
}

proof fn lemma_pending_printed(
    p: ScryModelView,
    s: ScopeView,
    chs: Seq<ElementChangeView>,
    es: Map<Seq<char>, Seq<char>>,
)
    requires
        forall|x: Seq<char>| !#[trigger] es.contains_key("e:"@ + x),
    ensures
        ({
            let fs = with_pending(p, s, chs, es);
            &&& forall|x: Seq<char>| #[trigger]
                fs.contains_key("e:"@ + x) ==> pending_shown(p, s, chs, x, fs["e:"@ + x])
            &&& forall|x: Seq<char>| #[trigger]
                fs.contains_key("d:"@ + x) ==> es.contains_key("d:"@ + x) && fs["d:"@ + x]
                    == es["d:"@ + x]
            &&& forall|x: Seq<char>| #[trigger]
                fs.contains_key("o:"@ + x) ==> es.contains_key("o:"@ + x) && fs["o:"@ + x]
                    == es["o:"@ + x]
        }),
    decreases chs.len(),
{
    if chs.len() > 0 {
        let d = chs.drop_last();
        let ch = chs.last();
        let n = chs.len() - 1;
        lemma_pending_printed(p, s, d, es);
        let before = with_pending(p, s, d, es);
        let fs = with_pending(p, s, chs, es);
        assert(chs[n] == ch);
        assert((owned_in(s, ch) || asked_for(p, s, ch)) ==> belongs(p, s, ch));
        assert forall|x: Seq<char>| #[trigger] fs.contains_key("e:"@ + x) implies pending_shown(
            p,
            s,
            chs,
            x,
            fs["e:"@ + x],
        ) by {
            lemma_behind_mark("e:"@, x, key_of(ch));
            if (owned_in(s, ch) || asked_for(p, s, ch)) && x == key_of(ch) {
                assert(key_of(chs[n]) == x);
            } else {
                assert(before.contains_key("e:"@ + x));
                assert(pending_shown(p, s, d, x, before["e:"@ + x]));
                let i = choose|i: int|
                    0 <= i < d.len() && key_of(#[trigger] d[i]) == x && belongs(p, s, d[i])
                        && before["e:"@ + x] == pending_print(p, d[i]);
                assert(chs[i] == d[i]);
            }
        }
        assert forall|x: Seq<char>| #[trigger] fs.contains_key("d:"@ + x) implies es.contains_key(
            "d:"@ + x,
        ) && fs["d:"@ + x] == es["d:"@ + x] by {
            lemma_marks_apart(x, key_of(ch));
            assert(before.contains_key("d:"@ + x));
        }
        assert forall|x: Seq<char>| #[trigger] fs.contains_key("o:"@ + x) implies es.contains_key(
            "o:"@ + x,
        ) && fs["o:"@ + x] == es["o:"@ + x] by {
            lemma_marks_apart(x, key_of(ch));
            assert(before.contains_key("o:"@ + x));
        }
    }
}

/// The prints of directives are of the nodes that were shown, those of outlines of the planned
/// nodes that were shown or outlined, and those of pending entries of entries of the plan that
/// belong to what was shown; each is the print of what it goes by.
pub proof fn law_what_the_other_prints_are_of(c: ScryModelView, p: ScryModelView, s: ScopeView)
    ensures
        ({
            let es = relevant_entries(c, p, s);
            &&& forall|x: Seq<char>| #[trigger]
                es.contains_key("d:"@ + x) ==> s.nodes.contains(x) && es["d:"@ + x]
                    == directive_print(c, p, x)
            &&& forall|x: Seq<char>| #[trigger]
                es.contains_key("o:"@ + x) ==> (s.nodes.contains(x) || s.outline.contains(x))
                    && first::<Node>(p.nodes, x) is Some && es["o:"@ + x] == outline_print(
                    first::<Node>(p.nodes, x)->0,
                )
            &&& forall|x: Seq<char>| #[trigger]
                es.contains_key("e:"@ + x) ==> pending_shown(
                    p,
                    s,
                    not_vagrant(p, diff_of(c, p)),
                    x,
                    es["e:"@ + x],
                )
        }),
{
    let outlined = |x: Seq<char>| s.nodes.contains(x) || s.outline.contains(x);
    lemma_nodes_printed(c, p, s.nodes, outlined, s.nodes);
    let e1 = with_nodes(c, p, s.nodes, Map::empty());
    lemma_groups_printed(c, p, s.nodes, outlined, s.groups, e1);
    let e2 = with_groups(c, p, s.groups, e1);
    lemma_outlines_printed(c, p, s.nodes, outlined, s.outline, e2);
    let e3 = with_outlines(p, s.outline, e2);
    lemma_pending_printed(p, s, not_vagrant(p, diff_of(c, p)), e3);
}

// ---- what the prints cover --------------------------------------------------------------

/// The directives that are handed down are covered one by one: where nothing else differs, the
/// texts do exactly where what one of them hands down reads otherwise.
pub proof fn law_inherited_directives_bind(
    a: Seq<InheritedDirectivesView>,
    b: Seq<InheritedDirectivesView>,
    k: int,
)
    requires
        a.len() == b.len(),
        0 <= k < a.len(),
        forall|i: int| 0 <= i < a.len() && i != k ==> #[trigger] a[i] == b[i],
        a[k].node_id == b[k].node_id,
    ensures
        inherited_text(a) == inherited_text(b) <==> directive_lines(a[k].directives)
            == directive_lines(b[k].directives),
    decreases a.len(),
{
    let (d, e) = (a.drop_last(), b.drop_last());
    let n = a.len() - 1;
    if k < n {
        assert(a[n] == b[n]);
        assert forall|i: int| 0 <= i < d.len() && i != k implies #[trigger] d[i] == e[i] by {
            assert(a[i] == b[i]);
        }
        law_inherited_directives_bind(d, e, k);
        let tail = a.last().node_id + "\u{3}"@ + directive_lines(a.last().directives) + sep();
        assert(inherited_text(a) =~= Seq::<char>::empty() + inherited_text(d) + tail);
        assert(inherited_text(b) =~= Seq::<char>::empty() + inherited_text(e) + tail);
        lemma_between(Seq::empty(), inherited_text(d), inherited_text(e), tail);
    } else {
        assert(d =~= e) by {
            assert forall|i: int| 0 <= i < d.len() implies d[i] == e[i] by {
                assert(a[i] == b[i]);
            }
        }
        let head = inherited_text(d) + a[k].node_id + "\u{3}"@;
        lemma_between(
            head,
            directive_lines(a[k].directives),
            directive_lines(b[k].directives),
            sep(),
        );
    }
}

/// Changes of members read apart where what came or what went does.
pub proof fn law_changed_members_read_as_they_are(
    a: Seq<Seq<char>>,
    b: Seq<Seq<char>>,
    x: Seq<Seq<char>>,
)
    requires
        a != b,
    ensures
        change_json(ChangeView::MembersChanged { added: a, removed: x }) != change_json(
            ChangeView::MembersChanged { added: b, removed: x },
        ),
        change_json(ChangeView::MembersChanged { added: x, removed: a }) != change_json(
            ChangeView::MembersChanged { added: x, removed: b },
        ),
{
    lemma_written_lists(a, b);
    let head = "{\"type\":\"membersChanged\",\"added\":"@;
    let mid = ",\"removed\":"@;
    let end = "}"@;
    lemma_between(head, json_list(a), json_list(b), mid + json_list(x) + end);
    assert(head + json_list(a) + mid + json_list(x) + end =~= head + json_list(a) + (mid
        + json_list(x) + end));
    assert(head + json_list(b) + mid + json_list(x) + end =~= head + json_list(b) + (mid
        + json_list(x) + end));
    lemma_between(head + json_list(x) + mid, json_list(a), json_list(b), end);
}

proof fn lemma_written_lists(a: Seq<Seq<char>>, b: Seq<Seq<char>>)
    ensures
        json_list(a) == json_list(b) ==> a == b,
{
    if json_list(a) == json_list(b) {
        lemma_between("["@, joined(json_texts(a), ","@), joined(json_texts(b), ","@), "]"@);
        lemma_lists_apart(a, b);
    }
}

/// The sorts of changes read apart: each begins by saying what it is.
pub proof fn law_sorts_of_changes_read_apart(a: ChangeView, b: ChangeView)
    requires
        (a is Added) != (b is Added) || (a is Deleted) != (b is Deleted) || (a is Moved) != (b
            is Moved) || (a is Repointed) != (b is Repointed) || (a is Reworded) != (b is Reworded),
    ensures
        change_json(a) != change_json(b),
{
    lemma_sort_told(a);
    lemma_sort_told(b);
}

proof fn lemma_sort_told(a: ChangeView)
    ensures
        change_json(a).len() > 12,
        change_json(a)[9] == match a {
            ChangeView::Added => 'a',
            ChangeView::Deleted => 'd',
            ChangeView::Moved { .. } => 'm',
            ChangeView::Repointed { .. } => 'r',
            ChangeView::Reworded { .. } => 'r',
            ChangeView::MembersChanged { .. } => 'm',
        },
        a is Moved ==> change_json(a)[10] == 'o',
        a is MembersChanged ==> change_json(a)[10] == 'e',
        a is Repointed ==> change_json(a)[11] == 'p',
        a is Reworded ==> change_json(a)[11] == 'w',
{
    reveal_strlit("{\"type\":\"added\"}");
    reveal_strlit("{\"type\":\"deleted\"}");
    reveal_strlit("{\"type\":\"moved\",\"from\":");
    reveal_strlit("{\"type\":\"repointed\",\"srcFrom\":");
    reveal_strlit("{\"type\":\"reworded\",\"field\":");
    reveal_strlit("{\"type\":\"membersChanged\",\"added\":");
}

// ---- how a difference is told -----------------------------------------------------------

/// How a key moved: new where it is only there now, gone where it was only there before, changed
/// where its print is another.
pub open spec fn says(was: ReadSetView, is_now: ReadSetView, k: Seq<char>) -> Seq<char> {
    if !was.entries.contains_key(k) {
        "new"@
    } else if !is_now.entries.contains_key(k) {
        "gone"@
    } else {
        "changed"@
    }
}

/// Does a key tell the two sets apart?
pub open spec fn differs_at(was: ReadSetView, is_now: ReadSetView, k: Seq<char>) -> bool {
    ||| was.entries.contains_key(k) != is_now.entries.contains_key(k)
    ||| was.entries.contains_key(k) && was.entries[k] != is_now.entries[k]
}

proof fn lemma_moved_among(
    c: ScryModelView,
    p: ScryModelView,
    was: ReadSetView,
    is_now: ReadSetView,
    ks: Seq<Seq<char>>,
)
    ensures
        moved_among(c, p, was.entries, is_now.entries, ks) == ks.filter(
            |k: Seq<char>| differs_at(was, is_now, k),
        ).map_values(
            |k: Seq<char>| DifferenceView { kind: says(was, is_now, k), what: described(c, p, k) },
        ),
    decreases ks.len(),
{
    reveal(Seq::filter);
    let f = |k: Seq<char>| differs_at(was, is_now, k);
    let g = |k: Seq<char>|
        DifferenceView { kind: says(was, is_now, k), what: described(c, p, k) };
    if ks.len() > 0 {
        let d = ks.drop_last();
        lemma_moved_among(c, p, was, is_now, d);
        if f(ks.last()) {
            assert(d.filter(f).push(ks.last()).map_values(g) =~= d.filter(f).map_values(g).push(
                g(ks.last()),
            ));
        }
    } else {
        assert(ks.filter(f).map_values(g) =~= Seq::empty());
    }
}

/// Each key at which two sets differ is told once, in the order of the keys, with how it moved
/// and what it is; and no other.
pub proof fn law_each_difference_is_told(
    c: ScryModelView,
    p: ScryModelView,
    was: ReadSetView,
    is_now: ReadSetView,
)
    requires
        was.entries.dom().finite(),
        is_now.entries.dom().finite(),
    ensures
        ({
            let ks = ascending(was.entries.dom().union(is_now.entries.dom()));
            &&& moved(c, p, was, is_now) == ks.filter(
                |k: Seq<char>| differs_at(was, is_now, k),
            ).map_values(
                |k: Seq<char>|
                    DifferenceView { kind: says(was, is_now, k), what: described(c, p, k) },
            )
            &&& forall|k: Seq<char>| #[trigger]
                ks.contains(k) <==> was.entries.contains_key(k) || is_now.entries.contains_key(k)
        }),
{
    let all = was.entries.dom().union(is_now.entries.dom());
    let ks = ascending(all);
    lemma_moved_among(c, p, was, is_now, ks);
    lemma_ascending_of(all);
    assert forall|k: Seq<char>| #[trigger] ks.contains(k) <==> was.entries.contains_key(k)
        || is_now.entries.contains_key(k) by {
        assert(ks.to_set().contains(k) == ks.contains(k));
    }
}

proof fn lemma_marked(tag: Seq<char>, c: char, x: Seq<char>)
    requires
        tag.len() == 1,
        tag[0] == c,
        c != ':',
    ensures
        ({
            let k = tag + ":"@ + x;
            &&& k.contains(':')
            &&& first_place(k, ':') == 1
            &&& k.take(1) == tag
            &&& k.skip(2) == x
        }),
{
    reveal_strlit(":");
    let k = tag + ":"@ + x;
    assert(k[1] == ':');
    assert(k.take(1) =~= tag);
    assert(!k.take(1).contains(':'));
    lemma_first_place(k, ':', 1);
    assert(k.skip(2) =~= x);
}

/// What a key is called: a claim by its layer, its id, its host and what it says; directives and
/// an outline by their node; a pending entry by its key.
pub proof fn law_how_a_key_is_called(c: ScryModelView, p: ScryModelView, x: Seq<char>)
    ensures
        described(c, p, "d:"@ + x) == "the binding directives of "@ + x,
        described(c, p, "o:"@ + x) == "the outline of "@ + x
            + " (its name, kind, parent or claim count)"@,
        described(c, p, "e:"@ + x) == "the pending entry "@ + x,
        ({
            let at = claim_anywhere(c, p, x);
            let tail = match at {
                Some((host, statement)) => " on "@ + host + " (\""@ + cut(statement) + "\")"@,
                None => " (no longer in the model)"@,
            };
            &&& described(c, p, "c"@ + ":"@ + x) == "the committed claim "@ + x + tail
            &&& described(c, p, "p"@ + ":"@ + x) == "the planned claim "@ + x + tail
        }),
{
    reveal_strlit("c");
    reveal_strlit("p");
    reveal_strlit("d");
    reveal_strlit("o");
    reveal_strlit("e");
    reveal_strlit(":");
    reveal_strlit("d:");
    reveal_strlit("o:");
    reveal_strlit("e:");
    reveal_strlit("the ");
    reveal_strlit("committed");
    reveal_strlit("planned");
    reveal_strlit(" claim ");
    reveal_strlit("the committed claim ");
    reveal_strlit("the planned claim ");
    lemma_marked("c"@, 'c', x);
    lemma_marked("p"@, 'p', x);
    lemma_marked("d"@, 'd', x);
    lemma_marked("o"@, 'o', x);
    lemma_marked("e"@, 'e', x);
    assert("d"@ + ":"@ + x =~= "d:"@ + x);
    assert("o"@ + ":"@ + x =~= "o:"@ + x);
    assert("e"@ + ":"@ + x =~= "e:"@ + x);
    assert("p"@[0] != "c"@[0]);
    assert("d"@[0] != "c"@[0] && "d"@[0] != "p"@[0]);
    assert("o"@[0] != "c"@[0] && "o"@[0] != "p"@[0] && "o"@[0] != "d"@[0]);
    assert("e"@[0] != "c"@[0] && "e"@[0] != "p"@[0] && "e"@[0] != "d"@[0] && "e"@[0] != "o"@[0]);
    assert("the committed claim "@ =~= "the "@ + "committed"@ + " claim "@);
    assert("the planned claim "@ =~= "the "@ + "planned"@ + " claim "@);
    match claim_anywhere(c, p, x) {
        Some((host, statement)) => {
            let tail = " on "@ + host + " (\""@ + cut(statement) + "\")"@;
            assert(described(c, p, "c"@ + ":"@ + x) =~= "the committed claim "@ + x + tail);
            assert(described(c, p, "p"@ + ":"@ + x) =~= "the planned claim "@ + x + tail);
        },
        None => {},
    }
}

proof fn lemma_in_nodes(ns: Seq<NodeView>, id: Seq<char>)
    ensures
        claim_in_nodes(ns, id) == match node_claim(ns, id) {
            Some((host, r)) => Some((host, r.statement)),
            None => None,
        },
    decreases ns.len(),
{
    if ns.len() > 0 {
        lemma_in_nodes(ns.drop_first(), id);
    }
}

proof fn lemma_in_groups(gs: Seq<GroupView>, id: Seq<char>)
    ensures
        claim_in_groups(gs, id) == match group_claim(gs, id) {
            Some((host, r)) => Some((host, r.statement)),
            None => None,
        },
    decreases gs.len(),
{
    if gs.len() > 0 {
        lemma_in_groups(gs.drop_first(), id);
    }
}

/// A claim is told as the plan has it, and as committed has it where the plan does not.
pub proof fn law_which_claim_is_told(c: ScryModelView, p: ScryModelView, id: Seq<char>)
    ensures
        claim_anywhere(c, p, id) == match claim_of(p, id) {
            Some((host, r)) => Some((host, r.statement)),
            None => match claim_of(c, id) {
                Some((host, r)) => Some((host, r.statement)),
                None => None,
            },
        },
{
    lemma_in_nodes(p.nodes, id);
    lemma_in_groups(p.groups, id);
    lemma_in_nodes(c.nodes, id);
    lemma_in_groups(c.groups, id);
}

/// A statement is told on one line, its runs of white space as one blank and none at its ends.
pub proof fn law_a_statement_is_told_on_one_line(s: Seq<char>, x: char)
    ensures
        flattened(Seq::empty()) == Seq::<char>::empty(),
        is_white(x) ==> flattened(s.push(x)) == flattened(s),
        !is_white(x) && s.len() > 0 && is_white(s.last()) && flattened(s).len() > 0 ==> flattened(
            s.push(x),
        ) == flattened(s).push(' ').push(x),
        !is_white(x) && (s.len() == 0 || !is_white(s.last()) || flattened(s).len() == 0)
            ==> flattened(s.push(x)) == flattened(s).push(x),
{
    assert(s.push(x).drop_last() =~= s);
    lemma_flat(s);
}

proof fn lemma_flat(s: Seq<char>)
    ensures
        flat_state(s).1 == (s.len() > 0 && is_white(s.last())),
    decreases s.len(),
{
    if s.len() > 0 {
        lemma_flat(s.drop_last());
    }
}

/// A statement of more than seventy characters is told by its first seventy.
pub proof fn law_a_long_statement_is_cut(s: Seq<char>)
    ensures
        flattened(s).len() <= 70 ==> cut(s) == flattened(s),
        flattened(s).len() > 70 ==> cut(s) == flattened(s).take(70) + "…"@,
{
}

} // verus!
