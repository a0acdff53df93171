//! What the relevant set of a scope holds.

use crate::basis::{
    asked_for, claim_print, directive_print, owned_in, pending_print, relevant_entries,
    relevant_set, with_claims, with_group_claims, with_groups, with_node, with_node_claims,
    with_nodes, with_outlines, with_pending, ScopeView,
};
use crate::changes::key_of;
use crate::diff::{diff_of, not_vagrant, ElementChangeView, ElementKind};
use crate::model::{Group, Node, ResponsibilityView, ScryModelView};
use crate::named::first;
use vstd::prelude::*;
use vstd::string::*;

verus! {

// ---- marks ------------------------------------------------------------------------------

/// Keys under different marks are different.
pub proof fn lemma_marks_apart(x: Seq<char>, y: Seq<char>)
    ensures
        "c"@ + ":"@ + x != "p"@ + ":"@ + y,
        "c"@ + ":"@ + x != "d:"@ + y,
        "c"@ + ":"@ + x != "o:"@ + y,
        "c"@ + ":"@ + x != "e:"@ + y,
        "p"@ + ":"@ + x != "d:"@ + y,
        "p"@ + ":"@ + x != "o:"@ + y,
        "p"@ + ":"@ + x != "e:"@ + y,
        "d:"@ + x != "o:"@ + y,
        "d:"@ + x != "e:"@ + y,
        "o:"@ + x != "e:"@ + y,
{
    reveal_strlit("c");
    reveal_strlit("p");
    reveal_strlit(":");
    reveal_strlit("d:");
    reveal_strlit("o:");
    reveal_strlit("e:");
    assert(("c"@ + ":"@ + x)[0] == 'c');
    assert(("p"@ + ":"@ + y)[0] == 'p');
    assert(("p"@ + ":"@ + x)[0] == 'p');
    assert(("d:"@ + y)[0] == 'd');
    assert(("d:"@ + x)[0] == 'd');
    assert(("o:"@ + y)[0] == 'o');
    assert(("o:"@ + x)[0] == 'o');
    assert(("e:"@ + y)[0] == 'e');
}

/// Behind one mark, keys tell what they are of.
pub proof fn lemma_behind_mark(a: Seq<char>, x: Seq<char>, y: Seq<char>)
    ensures
        a + x == a + y <==> x == y,
{
    if a + x == a + y {
        assert(x =~= (a + x).skip(a.len() as int));
        assert(y =~= (a + y).skip(a.len() as int));
    }
}

// ---- claims -----------------------------------------------------------------------------

/// The fingerprint is that of a claim called `x` that a shown node or group makes in the layer.
pub open spec fn shown_print(
    m: ScryModelView,
    s: ScopeView,
    x: Seq<char>,
    print: Seq<char>,
) -> bool {
    ||| exists|id: Seq<char>, k: int|
        #![trigger first::<Node>(m.nodes, id)->0.responsibilities[k]]
        s.nodes.contains(id) && first::<Node>(m.nodes, id) is Some && 0 <= k < first::<Node>(
            m.nodes,
            id,
        )->0.responsibilities.len() && first::<Node>(m.nodes, id)->0.responsibilities[k].id == x
            && print == claim_print(
            first::<Node>(m.nodes, id)->0.id,
            first::<Node>(m.nodes, id)->0.responsibilities[k],
        )
    ||| exists|id: Seq<char>, k: int|
        #![trigger first::<Group>(m.groups, id)->0.responsibilities[k]]
        s.groups.contains(id) && first::<Group>(m.groups, id) is Some && 0 <= k < first::<Group>(
            m.groups,
            id,
        )->0.responsibilities.len() && first::<Group>(m.groups, id)->0.responsibilities[k].id == x
            && print == claim_print(
            first::<Group>(m.groups, id)->0.id,
            first::<Group>(m.groups, id)->0.responsibilities[k],
        )
}

spec fn sound(
    m: ScryModelView,
    s: ScopeView,
    mark: Seq<char>,
    x: Seq<char>,
    es: Map<Seq<char>, Seq<char>>,
) -> bool {
    es.contains_key(mark + ":"@ + x) ==> shown_print(m, s, x, es[mark + ":"@ + x])
}

proof fn lemma_claims_in(
    mark: Seq<char>,
    host: Seq<char>,
    rs: Seq<ResponsibilityView>,
    es: Map<Seq<char>, Seq<char>>,
    key: Seq<char>,
)
    ensures
        es.contains_key(key) ==> with_claims(mark, host, rs, es).contains_key(key),
        forall|k: int|
            0 <= k < rs.len() ==> with_claims(mark, host, rs, es).contains_key(
                mark + ":"@ + (#[trigger] rs[k]).id,
            ),
        with_claims(mark, host, rs, es).contains_key(key) ==> (es.contains_key(key) && with_claims(
            mark,
            host,
            rs,
            es,
        )[key] == es[key]) || exists|k: int|
            0 <= k < rs.len() && key == mark + ":"@ + (#[trigger] rs[k]).id && with_claims(
                mark,
                host,
                rs,
                es,
            )[key] == claim_print(host, rs[k]),
    decreases rs.len(),
{
    if rs.len() > 0 {
        let d = rs.drop_last();
        lemma_claims_in(mark, host, d, es, key);
        let before = with_claims(mark, host, d, es);
        let after = with_claims(mark, host, rs, es);
        assert forall|k: int| 0 <= k < rs.len() implies after.contains_key(
            mark + ":"@ + (#[trigger] rs[k]).id,
        ) by {
            if k < d.len() {
                assert(before.contains_key(mark + ":"@ + d[k].id));
            }
        }
        assert(rs[rs.len() - 1] == rs.last());
        if after.contains_key(key) && key != mark + ":"@ + rs.last().id {
            if !(es.contains_key(key) && before[key] == es[key]) {
                let k = choose|k: int|
                    0 <= k < d.len() && key == mark + ":"@ + (#[trigger] d[k]).id && before[key]
                        == claim_print(host, d[k]);
                assert(rs[k] == d[k]);
            }
        }
    }
}

/// Is the mark that of a layer?
spec fn is_layer(mark: Seq<char>) -> bool {
    mark == "c"@ || mark == "p"@
}

proof fn lemma_layer_apart(mark: Seq<char>, other: Seq<char>, x: Seq<char>, y: Seq<char>)
    requires
        is_layer(mark),
        is_layer(other),
    ensures
        mark + ":"@ + x == other + ":"@ + y <==> mark == other && x == y,
        mark + ":"@ + x != "d:"@ + y,
        mark + ":"@ + x != "o:"@ + y,
        mark + ":"@ + x != "e:"@ + y,
{
    lemma_marks_apart(x, y);
    lemma_marks_apart(y, x);
    lemma_behind_mark(mark + ":"@, x, y);
    reveal_strlit("c");
    reveal_strlit("p");
    assert("c"@[0] == 'c');
    assert("p"@[0] == 'p');
}

spec fn layer_of(c: ScryModelView, p: ScryModelView, mark: Seq<char>) -> ScryModelView {
    if mark == "c"@ {
        c
    } else {
        p
    }
}

proof fn lemma_node_shown(
    c: ScryModelView,
    p: ScryModelView,
    s: ScopeView,
    id: Seq<char>,
    mark: Seq<char>,
    x: Seq<char>,
    es: Map<Seq<char>, Seq<char>>,
)
    requires
        is_layer(mark),
        s.nodes.contains(id),
        sound(layer_of(c, p, mark), s, mark, x, es),
    ensures
        sound(layer_of(c, p, mark), s, mark, x, with_node(c, p, id, es)),
{
    let m = layer_of(c, p, mark);
    reveal_strlit("c");
    reveal_strlit("p");
    assert("c"@[0] == 'c');
    assert("p"@[0] == 'p');
    let key = mark + ":"@ + x;
    let e0 = es.insert("d:"@ + id, directive_print(c, p, id));
    lemma_layer_apart(mark, mark, x, id);
    let e1 = with_node_claims("c"@, c, id, e0);
    let e2 = with_node_claims("p"@, p, id, e1);
    lemma_host_step(c, s, "c"@, mark, x, id, e0, m);
    lemma_host_step(p, s, "p"@, mark, x, id, e1, m);
    match first::<Node>(p.nodes, id) {
        Some(n) => {
            lemma_layer_apart(mark, mark, x, n.id);
        },
        None => {},
    }
}

proof fn lemma_host_step(
    l: ScryModelView,
    s: ScopeView,
    lm: Seq<char>,
    mark: Seq<char>,
    x: Seq<char>,
    id: Seq<char>,
    es: Map<Seq<char>, Seq<char>>,
    m: ScryModelView,
)
    requires
        is_layer(lm),
        is_layer(mark),
        lm == mark ==> l == m,
        s.nodes.contains(id),
        sound(m, s, mark, x, es),
    ensures
        sound(m, s, mark, x, with_node_claims(lm, l, id, es)),
{
    let key = mark + ":"@ + x;
    let after = with_node_claims(lm, l, id, es);
    match first::<Node>(l.nodes, id) {
        Some(n) => {
            lemma_claims_in(lm, n.id, n.responsibilities, es, key);
            if after.contains_key(key) && !(es.contains_key(key) && after[key] == es[key]) {
                let k = choose|k: int|
                    0 <= k < n.responsibilities.len() && key == lm + ":"@ + (
                    #[trigger] n.responsibilities[k]).id && after[key] == claim_print(
                        n.id,
                        n.responsibilities[k],
                    );
                lemma_layer_apart(mark, lm, x, n.responsibilities[k].id);
                assert(first::<Node>(m.nodes, id)->0.responsibilities[k].id == x);
            }
        },
        None => {},
    }
}

proof fn lemma_group_step(
    l: ScryModelView,
    s: ScopeView,
    lm: Seq<char>,
    mark: Seq<char>,
    x: Seq<char>,
    id: Seq<char>,
    es: Map<Seq<char>, Seq<char>>,
    m: ScryModelView,
)
    requires
        is_layer(lm),
        is_layer(mark),
        lm == mark ==> l == m,
        s.groups.contains(id),
        sound(m, s, mark, x, es),
    ensures
        sound(m, s, mark, x, with_group_claims(lm, l, id, es)),
{
    let key = mark + ":"@ + x;
    let after = with_group_claims(lm, l, id, es);
    match first::<Group>(l.groups, id) {
        Some(n) => {
            lemma_claims_in(lm, n.id, n.responsibilities, es, key);
            if after.contains_key(key) && !(es.contains_key(key) && after[key] == es[key]) {
                let k = choose|k: int|
                    0 <= k < n.responsibilities.len() && key == lm + ":"@ + (
                    #[trigger] n.responsibilities[k]).id && after[key] == claim_print(
                        n.id,
                        n.responsibilities[k],
                    );
                lemma_layer_apart(mark, lm, x, n.responsibilities[k].id);
                assert(first::<Group>(m.groups, id)->0.responsibilities[k].id == x);
            }
        },
        None => {},
    }
}

proof fn lemma_nodes_sound(
    c: ScryModelView,
    p: ScryModelView,
    s: ScopeView,
    ids: Seq<Seq<char>>,
    mark: Seq<char>,
    x: Seq<char>,
)
    requires
        is_layer(mark),
        forall|i: int| 0 <= i < ids.len() ==> s.nodes.contains(#[trigger] ids[i]),
    ensures
        sound(layer_of(c, p, mark), s, mark, x, with_nodes(c, p, ids, Map::empty())),
    decreases ids.len(),
{
    if ids.len() > 0 {
        let d = ids.drop_last();
        assert forall|i: int| 0 <= i < d.len() implies s.nodes.contains(#[trigger] d[i]) by {
            assert(ids[i] == d[i]);
        }
        lemma_nodes_sound(c, p, s, d, mark, x);
        assert(s.nodes.contains(ids[ids.len() - 1]));
        lemma_node_shown(c, p, s, ids.last(), mark, x, with_nodes(c, p, d, Map::empty()));
    }
}

proof fn lemma_groups_sound(
    c: ScryModelView,
    p: ScryModelView,
    s: ScopeView,
    ids: Seq<Seq<char>>,
    mark: Seq<char>,
    x: Seq<char>,
    es: Map<Seq<char>, Seq<char>>,
)
    requires
        is_layer(mark),
        forall|i: int| 0 <= i < ids.len() ==> s.groups.contains(#[trigger] ids[i]),
        sound(layer_of(c, p, mark), s, mark, x, es),
    ensures
        sound(layer_of(c, p, mark), s, mark, x, with_groups(c, p, ids, es)),
    decreases ids.len(),
{
    if ids.len() > 0 {
        let d = ids.drop_last();
        assert forall|i: int| 0 <= i < d.len() implies s.groups.contains(#[trigger] d[i]) by {
            assert(ids[i] == d[i]);
        }
        lemma_groups_sound(c, p, s, d, mark, x, es);
        assert(s.groups.contains(ids[ids.len() - 1]));
        let m = layer_of(c, p, mark);
        let before = with_groups(c, p, d, es);
        reveal_strlit("c");
        reveal_strlit("p");
        assert("c"@[0] == 'c');
        assert("p"@[0] == 'p');
        lemma_group_step(c, s, "c"@, mark, x, ids.last(), before, m);
        lemma_group_step(
            p,
            s,
            "p"@,
            mark,
            x,
            ids.last(),
            with_group_claims("c"@, c, ids.last(), before),
            m,
        );
    }
}

proof fn lemma_outlines_leave(
    p: ScryModelView,
    ids: Seq<Seq<char>>,
    es: Map<Seq<char>, Seq<char>>,
    mark: Seq<char>,
    x: Seq<char>,
)
    requires
        is_layer(mark),
    ensures
        ({
            let key = mark + ":"@ + x;
            let after = with_outlines(p, ids, es);
            after.contains_key(key) == es.contains_key(key) && (es.contains_key(key) ==> after[key]
                == es[key])
        }),
    decreases ids.len(),
{
    if ids.len() > 0 {
        lemma_outlines_leave(p, ids.drop_last(), es, mark, x);
        match first::<Node>(p.nodes, ids.last()) {
            Some(n) => {
                lemma_layer_apart(mark, mark, x, n.id);
            },
            None => {},
        }
    }
}

proof fn lemma_pending_leaves(
    p: ScryModelView,
    s: ScopeView,
    chs: Seq<ElementChangeView>,
    es: Map<Seq<char>, Seq<char>>,
    mark: Seq<char>,
    x: Seq<char>,
)
    requires
        is_layer(mark),
    ensures
        ({
            let key = mark + ":"@ + x;
            let after = with_pending(p, s, chs, es);
            after.contains_key(key) == es.contains_key(key) && (es.contains_key(key) ==> after[key]
                == es[key])
        }),
    decreases chs.len(),
{
    if chs.len() > 0 {
        lemma_pending_leaves(p, s, chs.drop_last(), es, mark, x);
        lemma_layer_apart(mark, mark, x, key_of(chs.last()));
    }
}

proof fn lemma_sound(
    c: ScryModelView,
    p: ScryModelView,
    s: ScopeView,
    mark: Seq<char>,
    x: Seq<char>,
)
    requires
        is_layer(mark),
    ensures
        sound(layer_of(c, p, mark), s, mark, x, relevant_entries(c, p, s)),
{
    let e1 = with_nodes(c, p, s.nodes, Map::empty());
    let e2 = with_groups(c, p, s.groups, e1);
    let e3 = with_outlines(p, s.outline, e2);
    lemma_nodes_sound(c, p, s, s.nodes, mark, x);
    lemma_groups_sound(c, p, s, s.groups, mark, x, e1);
    lemma_outlines_leave(p, s.outline, e2, mark, x);
    lemma_pending_leaves(p, s, not_vagrant(p, diff_of(c, p)), e3, mark, x);
}

/// What the relevant set holds of a claim is the fingerprint of one with its id that a shown
/// node or group makes, in the layer it is marked with.
pub proof fn law_prints_are_of_shown_claims(
    c: ScryModelView,
    p: ScryModelView,
    s: ScopeView,
    x: Seq<char>,
)
    ensures
        relevant_entries(c, p, s).contains_key("c"@ + ":"@ + x) ==> shown_print(
            c,
            s,
            x,
            relevant_entries(c, p, s)["c"@ + ":"@ + x],
        ),
        relevant_entries(c, p, s).contains_key("p"@ + ":"@ + x) ==> shown_print(
            p,
            s,
            x,
            relevant_entries(c, p, s)["p"@ + ":"@ + x],
        ),
{
    reveal_strlit("c");
    reveal_strlit("p");
    assert("c"@[0] == 'c');
    assert("p"@[0] == 'p');
    lemma_sound(c, p, s, "c"@, x);
    lemma_sound(c, p, s, "p"@, x);
}

// ---- everything shown is there ----------------------------------------------------------

spec fn within(a: Map<Seq<char>, Seq<char>>, b: Map<Seq<char>, Seq<char>>) -> bool {
    forall|k: Seq<char>| #[trigger] a.contains_key(k) ==> b.contains_key(k)
}

proof fn lemma_claims_grow(
    mark: Seq<char>,
    host: Seq<char>,
    rs: Seq<ResponsibilityView>,
    es: Map<Seq<char>, Seq<char>>,
)
    ensures
        within(es, with_claims(mark, host, rs, es)),
{
    assert forall|k: Seq<char>| #[trigger] es.contains_key(k) implies with_claims(
        mark,
        host,
        rs,
        es,
    ).contains_key(k) by {
        lemma_claims_in(mark, host, rs, es, k);
    }
}

proof fn lemma_node_grows(
    c: ScryModelView,
    p: ScryModelView,
    id: Seq<char>,
    es: Map<Seq<char>, Seq<char>>,
)
    ensures
        within(es, with_node(c, p, id, es)),
        with_node(c, p, id, es).contains_key("d:"@ + id),
        first::<Node>(p.nodes, id) is Some ==> with_node(c, p, id, es).contains_key(
            "o:"@ + first::<Node>(p.nodes, id)->0.id,
        ),
        first::<Node>(c.nodes, id) is Some ==> forall|k: int|
            0 <= k < first::<Node>(c.nodes, id)->0.responsibilities.len() ==> with_node(
                c,
                p,
                id,
                es,
            ).contains_key("c"@ + ":"@ + (#[trigger] first::<Node>(c.nodes, id)->0.responsibilities[k]).id),
        first::<Node>(p.nodes, id) is Some ==> forall|k: int|
            0 <= k < first::<Node>(p.nodes, id)->0.responsibilities.len() ==> with_node(
                c,
                p,
                id,
                es,
            ).contains_key("p"@ + ":"@ + (#[trigger] first::<Node>(p.nodes, id)->0.responsibilities[k]).id),
{
    let e0 = es.insert("d:"@ + id, directive_print(c, p, id));
    let e1 = with_node_claims("c"@, c, id, e0);
    let e2 = with_node_claims("p"@, p, id, e1);
    match first::<Node>(c.nodes, id) {
        Some(n) => {
            lemma_claims_grow("c"@, n.id, n.responsibilities, e0);
            lemma_claims_in("c"@, n.id, n.responsibilities, e0, "d:"@ + id);
        },
        None => {},
    }
    match first::<Node>(p.nodes, id) {
        Some(n) => {
            lemma_claims_grow("p"@, n.id, n.responsibilities, e1);
            lemma_claims_in("p"@, n.id, n.responsibilities, e1, "d:"@ + id);
        },
        None => {},
    }
    assert(within(es, e0));
    assert(within(e0, e1));
    assert(within(e1, e2));
    assert(within(e2, with_node(c, p, id, es)));
}

proof fn lemma_nodes_grow(
    c: ScryModelView,
    p: ScryModelView,
    ids: Seq<Seq<char>>,
    es: Map<Seq<char>, Seq<char>>,
    i: int,
)
    requires
        0 <= i < ids.len(),
    ensures
        ({
            let all = with_nodes(c, p, ids, es);
            let id = ids[i];
            &&& all.contains_key("d:"@ + id)
            &&& first::<Node>(p.nodes, id) is Some ==> all.contains_key(
                "o:"@ + first::<Node>(p.nodes, id)->0.id,
            )
            &&& first::<Node>(c.nodes, id) is Some ==> forall|k: int|
                0 <= k < first::<Node>(c.nodes, id)->0.responsibilities.len() ==> all.contains_key(
                    "c"@ + ":"@ + (#[trigger] first::<Node>(c.nodes, id)->0.responsibilities[k]).id,
                )
            &&& first::<Node>(p.nodes, id) is Some ==> forall|k: int|
                0 <= k < first::<Node>(p.nodes, id)->0.responsibilities.len() ==> all.contains_key(
                    "p"@ + ":"@ + (#[trigger] first::<Node>(p.nodes, id)->0.responsibilities[k]).id,
                )
        }),
    decreases ids.len(),
{
    let d = ids.drop_last();
    let before = with_nodes(c, p, d, es);
    lemma_node_grows(c, p, ids.last(), before);
    if i < d.len() {
        lemma_nodes_grow(c, p, d, es, i);
        assert(d[i] == ids[i]);
    }
}

proof fn lemma_group_grows(
    c: ScryModelView,
    p: ScryModelView,
    id: Seq<char>,
    es: Map<Seq<char>, Seq<char>>,
)
    ensures
        ({
            let after = with_group_claims("p"@, p, id, with_group_claims("c"@, c, id, es));
            &&& within(es, after)
            &&& first::<Group>(c.groups, id) is Some ==> forall|k: int|
                0 <= k < first::<Group>(c.groups, id)->0.responsibilities.len()
                    ==> after.contains_key(
                    "c"@ + ":"@ + (#[trigger] first::<Group>(c.groups, id)->0.responsibilities[k]).id,
                )
            &&& first::<Group>(p.groups, id) is Some ==> forall|k: int|
                0 <= k < first::<Group>(p.groups, id)->0.responsibilities.len()
                    ==> after.contains_key(
                    "p"@ + ":"@ + (#[trigger] first::<Group>(p.groups, id)->0.responsibilities[k]).id,
                )
        }),
{
    let e1 = with_group_claims("c"@, c, id, es);
    let key = Seq::<char>::empty();
    match first::<Group>(c.groups, id) {
        Some(n) => {
            lemma_claims_grow("c"@, n.id, n.responsibilities, es);
            lemma_claims_in("c"@, n.id, n.responsibilities, es, key);
        },
        None => {},
    }
    match first::<Group>(p.groups, id) {
        Some(n) => {
            lemma_claims_grow("p"@, n.id, n.responsibilities, e1);
            lemma_claims_in("p"@, n.id, n.responsibilities, e1, key);
        },
        None => {},
    }
    assert(within(es, e1));
}

proof fn lemma_groups_grow(
    c: ScryModelView,
    p: ScryModelView,
    ids: Seq<Seq<char>>,
    es: Map<Seq<char>, Seq<char>>,
)
    ensures
        within(es, with_groups(c, p, ids, es)),
        forall|i: int|
            0 <= i < ids.len() && first::<Group>(c.groups, #[trigger] ids[i]) is Some ==> forall|
                k: int,
            |
                0 <= k < first::<Group>(c.groups, ids[i])->0.responsibilities.len() ==> with_groups(
                    c,
                    p,
                    ids,
                    es,
                ).contains_key(
                    "c"@ + ":"@ + (#[trigger] first::<Group>(c.groups, ids[i])->0.responsibilities[k]).id,
                ),
        forall|i: int|
            0 <= i < ids.len() && first::<Group>(p.groups, #[trigger] ids[i]) is Some ==> forall|
                k: int,
            |
                0 <= k < first::<Group>(p.groups, ids[i])->0.responsibilities.len() ==> with_groups(
                    c,
                    p,
                    ids,
                    es,
                ).contains_key(
                    "p"@ + ":"@ + (#[trigger] first::<Group>(p.groups, ids[i])->0.responsibilities[k]).id,
                ),
    decreases ids.len(),
{
    if ids.len() > 0 {
        let d = ids.drop_last();
        lemma_groups_grow(c, p, d, es);
        let before = with_groups(c, p, d, es);
        let all = with_groups(c, p, ids, es);
        lemma_group_grows(c, p, ids.last(), before);
        assert forall|i: int|
            0 <= i < ids.len() && first::<Group>(c.groups, #[trigger] ids[i]) is Some implies forall|
            k: int,
        |
            0 <= k < first::<Group>(c.groups, ids[i])->0.responsibilities.len() ==> all.contains_key(
                "c"@ + ":"@ + (#[trigger] first::<Group>(c.groups, ids[i])->0.responsibilities[k]).id,
            ) by {
            if i < d.len() {
                assert(d[i] == ids[i]);
                assert forall|k: int|
                    0 <= k < first::<Group>(c.groups, ids[i])->0.responsibilities.len() implies all.contains_key(
                    "c"@ + ":"@ + (#[trigger] first::<Group>(c.groups, ids[i])->0.responsibilities[k]).id,
                ) by {
                    assert(before.contains_key(
                        "c"@ + ":"@ + first::<Group>(c.groups, d[i])->0.responsibilities[k].id,
                    ));
                }
            }
        }
        assert forall|i: int|
            0 <= i < ids.len() && first::<Group>(p.groups, #[trigger] ids[i]) is Some implies forall|
            k: int,
        |
            0 <= k < first::<Group>(p.groups, ids[i])->0.responsibilities.len() ==> all.contains_key(
                "p"@ + ":"@ + (#[trigger] first::<Group>(p.groups, ids[i])->0.responsibilities[k]).id,
            ) by {
            if i < d.len() {
                assert(d[i] == ids[i]);
                assert forall|k: int|
                    0 <= k < first::<Group>(p.groups, ids[i])->0.responsibilities.len() implies all.contains_key(
                    "p"@ + ":"@ + (#[trigger] first::<Group>(p.groups, ids[i])->0.responsibilities[k]).id,
                ) by {
                    assert(before.contains_key(
                        "p"@ + ":"@ + first::<Group>(p.groups, d[i])->0.responsibilities[k].id,
                    ));
                }
            }
        }
    }
}

proof fn lemma_outlines_grow(p: ScryModelView, ids: Seq<Seq<char>>, es: Map<Seq<char>, Seq<char>>)
    ensures
        within(es, with_outlines(p, ids, es)),
        forall|i: int|
            0 <= i < ids.len() && first::<Node>(p.nodes, #[trigger] ids[i]) is Some
                ==> with_outlines(p, ids, es).contains_key(
                "o:"@ + first::<Node>(p.nodes, ids[i])->0.id,
            ),
    decreases ids.len(),
{
    if ids.len() > 0 {
        let d = ids.drop_last();
        lemma_outlines_grow(p, d, es);
        let before = with_outlines(p, d, es);
        let all = with_outlines(p, ids, es);
        assert forall|i: int|
            0 <= i < ids.len() && first::<Node>(p.nodes, #[trigger] ids[i]) is Some implies all.contains_key(
            "o:"@ + first::<Node>(p.nodes, ids[i])->0.id,
        ) by {
            if i < d.len() {
                assert(d[i] == ids[i]);
                assert(before.contains_key("o:"@ + first::<Node>(p.nodes, d[i])->0.id));
            }
        }
    }
}

/// Does a pending entry belong to what a read showed: is it of a shown node or group, or of
/// what one owns, is it a link at a shown node, or did the read ask for it by how it is filed?
pub open spec fn belongs(p: ScryModelView, s: ScopeView, e: ElementChangeView) -> bool {
    let filed = if p.change_map.contains_key(key_of(e)) {
        Some(p.change_map[key_of(e)])
    } else {
        None
    };
    ||| e.kind == ElementKind::Node && s.nodes.contains(e.id)
    ||| e.kind == ElementKind::Group && s.groups.contains(e.id)
    ||| (e.kind == ElementKind::Responsibility || e.kind == ElementKind::Property) && e.owner_id
        is Some && (s.nodes.contains(e.owner_id->0) || s.groups.contains(e.owner_id->0))
    ||| e.kind == ElementKind::Link && ((e.from is Some && s.nodes.contains(e.from->0)) || (e.to
        is Some && s.nodes.contains(e.to->0)))
    ||| s.pending == Some("*"@)
    ||| s.pending == Some("unfiled"@) && filed is None
    ||| s.pending is Some && s.pending->0 != "*"@ && s.pending->0 != "unfiled"@ && filed
        == s.pending
}

proof fn lemma_pending_grows(
    p: ScryModelView,
    s: ScopeView,
    chs: Seq<ElementChangeView>,
    es: Map<Seq<char>, Seq<char>>,
)
    ensures
        within(es, with_pending(p, s, chs, es)),
        forall|i: int|
            0 <= i < chs.len() && belongs(p, s, #[trigger] chs[i]) ==> with_pending(
                p,
                s,
                chs,
                es,
            ).contains_key("e:"@ + key_of(chs[i])),
        forall|x: Seq<char>| #[trigger]
            with_pending(p, s, chs, es).contains_key("e:"@ + x) ==> es.contains_key("e:"@ + x) || (
            exists|i: int|
                0 <= i < chs.len() && belongs(p, s, #[trigger] chs[i]) && key_of(chs[i]) == x
                    && with_pending(p, s, chs, es)["e:"@ + x] == pending_print(p, chs[i])),
    decreases chs.len(),
{
    if chs.len() > 0 {
        let d = chs.drop_last();
        let e = chs.last();
        lemma_pending_grows(p, s, d, es);
        reveal_strlit("*");
        reveal_strlit("unfiled");
        assert("*"@.len() != "unfiled"@.len());
        assert(belongs(p, s, e) == (owned_in(s, e) || asked_for(p, s, e)));
        let before = with_pending(p, s, d, es);
        let all = with_pending(p, s, chs, es);
        assert(chs[chs.len() - 1] == e);
        assert forall|i: int| 0 <= i < chs.len() && belongs(p, s, #[trigger] chs[i]) implies all.contains_key(
            "e:"@ + key_of(chs[i]),
        ) by {
            if i < d.len() {
                assert(d[i] == chs[i]);
                assert(before.contains_key("e:"@ + key_of(d[i])));
            }
        }
        assert forall|x: Seq<char>| #[trigger] all.contains_key("e:"@ + x) implies es.contains_key(
            "e:"@ + x,
        ) || (exists|i: int|
            0 <= i < chs.len() && belongs(p, s, #[trigger] chs[i]) && key_of(chs[i]) == x
                && all["e:"@ + x] == pending_print(p, chs[i])) by {
            lemma_behind_mark("e:"@, x, key_of(e));
            if belongs(p, s, e) && key_of(e) == x {
                assert(belongs(p, s, chs[chs.len() - 1]));
            } else {
                assert(before.contains_key("e:"@ + x));
                if !es.contains_key("e:"@ + x) {
                    let i = choose|i: int|
                        0 <= i < d.len() && belongs(p, s, #[trigger] d[i]) && key_of(d[i]) == x
                            && before["e:"@ + x] == pending_print(p, d[i]);
                    assert(chs[i] == d[i]);
                }
            }
        }
    }
}

/// Everything a read showed is in its relevant set: of each node whose claims were shown its
/// binding directives, its outline and every claim it makes in either layer, of each group every
/// claim, of each node in the overview its outline, and of the work queue every entry that
/// belongs to them or was asked for.
pub proof fn law_everything_shown_is_relevant(
    c: ScryModelView,
    p: ScryModelView,
    s: ScopeView,
)
    ensures
        ({
            let es = relevant_entries(c, p, s);
            &&& forall|id: Seq<char>| #[trigger]
                s.nodes.contains(id) ==> {
                    &&& es.contains_key("d:"@ + id)
                    &&& first::<Node>(p.nodes, id) is Some ==> es.contains_key(
                        "o:"@ + first::<Node>(p.nodes, id)->0.id,
                    )
                    &&& first::<Node>(c.nodes, id) is Some ==> forall|k: int|
                        0 <= k < first::<Node>(c.nodes, id)->0.responsibilities.len()
                            ==> es.contains_key(
                            "c"@ + ":"@ + (#[trigger] first::<Node>(
                                c.nodes,
                                id,
                            )->0.responsibilities[k]).id,
                        )
                    &&& first::<Node>(p.nodes, id) is Some ==> forall|k: int|
                        0 <= k < first::<Node>(p.nodes, id)->0.responsibilities.len()
                            ==> es.contains_key(
                            "p"@ + ":"@ + (#[trigger] first::<Node>(
                                p.nodes,
                                id,
                            )->0.responsibilities[k]).id,
                        )
                }
            &&& forall|id: Seq<char>| #[trigger]
                s.groups.contains(id) ==> {
                    &&& first::<Group>(c.groups, id) is Some ==> forall|k: int|
                        0 <= k < first::<Group>(c.groups, id)->0.responsibilities.len()
                            ==> es.contains_key(
                            "c"@ + ":"@ + (#[trigger] first::<Group>(
                                c.groups,
                                id,
                            )->0.responsibilities[k]).id,
                        )
                    &&& first::<Group>(p.groups, id) is Some ==> forall|k: int|
                        0 <= k < first::<Group>(p.groups, id)->0.responsibilities.len()
                            ==> es.contains_key(
                            "p"@ + ":"@ + (#[trigger] first::<Group>(
                                p.groups,
                                id,
                            )->0.responsibilities[k]).id,
                        )
                }
            &&& forall|id: Seq<char>| #[trigger]
                s.outline.contains(id) && first::<Node>(p.nodes, id) is Some ==> es.contains_key(
                    "o:"@ + first::<Node>(p.nodes, id)->0.id,
                )
            &&& forall|i: int|
                0 <= i < not_vagrant(p, diff_of(c, p)).len() && belongs(
                    p,
                    s,
                    #[trigger] not_vagrant(p, diff_of(c, p))[i],
                ) ==> es.contains_key("e:"@ + key_of(not_vagrant(p, diff_of(c, p))[i]))
        }),
{
    let e1 = with_nodes(c, p, s.nodes, Map::empty());
    let e2 = with_groups(c, p, s.groups, e1);
    let e3 = with_outlines(p, s.outline, e2);
    let chs = not_vagrant(p, diff_of(c, p));
    let es = relevant_entries(c, p, s);
    lemma_groups_grow(c, p, s.groups, e1);
    lemma_outlines_grow(p, s.outline, e2);
    lemma_pending_grows(p, s, chs, e3);
    assert(within(e1, e2) && within(e2, e3) && within(e3, es));
    assert forall|id: Seq<char>| #[trigger] s.nodes.contains(id) implies {
        &&& es.contains_key("d:"@ + id)
        &&& first::<Node>(p.nodes, id) is Some ==> es.contains_key(
            "o:"@ + first::<Node>(p.nodes, id)->0.id,
        )
        &&& first::<Node>(c.nodes, id) is Some ==> forall|k: int|
            0 <= k < first::<Node>(c.nodes, id)->0.responsibilities.len() ==> es.contains_key(
                "c"@ + ":"@ + (#[trigger] first::<Node>(c.nodes, id)->0.responsibilities[k]).id,
            )
        &&& first::<Node>(p.nodes, id) is Some ==> forall|k: int|
            0 <= k < first::<Node>(p.nodes, id)->0.responsibilities.len() ==> es.contains_key(
                "p"@ + ":"@ + (#[trigger] first::<Node>(p.nodes, id)->0.responsibilities[k]).id,
            )
    } by {
        let i = choose|i: int| 0 <= i < s.nodes.len() && s.nodes[i] == id;
        lemma_nodes_grow(c, p, s.nodes, Map::empty(), i);
    }
    assert forall|id: Seq<char>| #[trigger] s.groups.contains(id) implies {
        &&& first::<Group>(c.groups, id) is Some ==> forall|k: int|
            0 <= k < first::<Group>(c.groups, id)->0.responsibilities.len() ==> es.contains_key(
                "c"@ + ":"@ + (#[trigger] first::<Group>(c.groups, id)->0.responsibilities[k]).id,
            )
        &&& first::<Group>(p.groups, id) is Some ==> forall|k: int|
            0 <= k < first::<Group>(p.groups, id)->0.responsibilities.len() ==> es.contains_key(
                "p"@ + ":"@ + (#[trigger] first::<Group>(p.groups, id)->0.responsibilities[k]).id,
            )
    } by {
        let i = choose|i: int| 0 <= i < s.groups.len() && s.groups[i] == id;
        assert(s.groups[i] == id);
    }
    assert forall|id: Seq<char>| #[trigger] s.outline.contains(id) && first::<Node>(p.nodes, id) is Some implies
        es.contains_key("o:"@ + first::<Node>(p.nodes, id)->0.id) by {
        let i = choose|i: int| 0 <= i < s.outline.len() && s.outline[i] == id;
        assert(s.outline[i] == id);
    }
}

/// The relevant set of a scope is that of the same ids in order, each once, without an outline
/// where the claims were shown.
pub proof fn law_the_relevant_set_is_of_what_was_shown(
    c: ScryModelView,
    p: ScryModelView,
    s: ScopeView,
)
    ensures
        ({
            let r = relevant_set(c, p, s);
            &&& r.entries == relevant_entries(c, p, r.scope)
            &&& forall|id: Seq<char>| #[trigger] r.scope.nodes.contains(id) <==> s.nodes.contains(id)
            &&& forall|id: Seq<char>| #[trigger]
                r.scope.groups.contains(id) <==> s.groups.contains(id)
            &&& forall|id: Seq<char>| #[trigger]
                r.scope.outline.contains(id) <==> s.outline.contains(id) && !s.nodes.contains(id)
            &&& r.scope.pending == s.pending
            &&& r.scope.nodes.no_duplicates() && r.scope.groups.no_duplicates()
                && r.scope.outline.no_duplicates()
        }),
{
    let r = relevant_set(c, p, s);
    vstd::seq_lib::seq_to_set_is_finite(s.nodes);
    vstd::seq_lib::seq_to_set_is_finite(s.groups);
    vstd::seq_lib::seq_to_set_is_finite(s.outline);
    let d = s.outline.to_set().difference(s.nodes.to_set());
    assert(d.finite());
    crate::text::lemma_ascending_of(s.nodes.to_set());
    crate::text::lemma_ascending_of(s.groups.to_set());
    crate::text::lemma_ascending_of(d);
    lemma_once(r.scope.nodes);
    lemma_once(r.scope.groups);
    lemma_once(r.scope.outline);
    assert forall|id: Seq<char>| #[trigger] r.scope.nodes.contains(id) <==> s.nodes.contains(id) by {
        assert(r.scope.nodes.to_set().contains(id) == r.scope.nodes.contains(id));
        assert(s.nodes.to_set().contains(id) == s.nodes.contains(id));
    }
    assert forall|id: Seq<char>| #[trigger] r.scope.groups.contains(id) <==> s.groups.contains(id) by {
        assert(r.scope.groups.to_set().contains(id) == r.scope.groups.contains(id));
        assert(s.groups.to_set().contains(id) == s.groups.contains(id));
    }
    assert forall|id: Seq<char>| #[trigger]
        r.scope.outline.contains(id) <==> s.outline.contains(id) && !s.nodes.contains(id) by {
        assert(r.scope.outline.to_set().contains(id) == r.scope.outline.contains(id));
        assert(s.outline.to_set().contains(id) == s.outline.contains(id));
        assert(s.nodes.to_set().contains(id) == s.nodes.contains(id));
    }
}

proof fn lemma_once(s: Seq<Seq<char>>)
    requires
        crate::text::ascends(s),
    ensures
        s.no_duplicates(),
{
    assert forall|i: int, j: int| 0 <= i < s.len() && 0 <= j < s.len() && i != j implies s[i] != s[j] by {
        crate::text::lemma_lex_irreflexive(s[i]);
        if i < j {
            assert(crate::text::lex_lt(s[i], s[j]));
        } else {
            assert(crate::text::lex_lt(s[j], s[i]));
        }
    }
}

} // verus!
