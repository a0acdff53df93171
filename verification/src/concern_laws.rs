//! What registering and syncing concerns come to.

use crate::concerns::{
    ascii_parts, ascii_slug, clean_tag, new_entry, registered, slug_of, slug_state, slugs_in_use,
    standard_from, synced, tag_in_claims, tag_in_groups, tag_in_nodes, tag_of, used_by_claims,
    used_by_groups, used_by_nodes, with_entries, ConcernDef, ConcernDefView, STANDARD_CONCERNS,
};
use crate::letters::lowered;
use crate::model::{GroupView, NodeView, ResponsibilityView, ScryModelView};
use crate::named::{has_named, law_sorting_by_name, sorted_by, Named};
use vstd::prelude::*;
use vstd::string::*;

verus! {

// ---- slugs ------------------------------------------------------------------------------

/// Is the character a letter or a digit of ASCII?
pub open spec fn letter_or_digit(c: char) -> bool {
    ('a' <= c && c <= 'z') || ('A' <= c && c <= 'Z') || ('0' <= c && c <= '9')
}

proof fn lemma_parts_pushed(s: Seq<char>, c: char)
    ensures
        ascii_parts(s.push(c)) == ascii_parts(s).push(
            if letter_or_digit(c) {
                Some(seq![lowered(c)])
            } else {
                None
            },
        ),
{
    assert(ascii_parts(s.push(c)) =~= ascii_parts(s).push(
        if letter_or_digit(c) {
            Some(seq![lowered(c)])
        } else {
            None
        },
    ));
}

/// Has a separator been met since the last letter?
spec fn parted(s: Seq<char>) -> bool {
    s.len() > 0 && !letter_or_digit(s.last())
}

proof fn lemma_state(s: Seq<char>)
    ensures
        slug_state(ascii_parts(s)).0 == ascii_slug(s),
        slug_state(ascii_parts(s)).1 == parted(s),
    decreases s.len(),
{
    if s.len() > 0 {
        lemma_parts_pushed(s.drop_last(), s.last());
        assert(s =~= s.drop_last().push(s.last()));
        assert(ascii_parts(s).drop_last() =~= ascii_parts(s.drop_last()));
        lemma_state(s.drop_last());
    }
}

/// The slug of an ASCII text grows by each letter and digit, in lower case, with a hyphen before
/// it where something else stands between it and the one before; by nothing else.
pub proof fn law_a_slug_grows_by_its_letters(s: Seq<char>, c: char)
    ensures
        ascii_slug(Seq::empty()) == Seq::<char>::empty(),
        !letter_or_digit(c) ==> ascii_slug(s.push(c)) == ascii_slug(s),
        letter_or_digit(c) && ascii_slug(s).len() == 0 ==> ascii_slug(s.push(c)) == seq![lowered(c)],
        letter_or_digit(c) && s.len() > 0 && letter_or_digit(s.last()) ==> ascii_slug(s.push(c))
            == ascii_slug(s).push(lowered(c)),
        letter_or_digit(c) && ascii_slug(s).len() > 0 && !letter_or_digit(s.last()) ==> ascii_slug(
            s.push(c),
        ) == ascii_slug(s).push('-').push(lowered(c)),
{
    lemma_state(Seq::empty());
    assert(ascii_parts(Seq::empty()) =~= Seq::empty());
    lemma_state(s);
    lemma_state(s.push(c));
    lemma_parts_pushed(s, c);
    assert(ascii_parts(s.push(c)).drop_last() =~= ascii_parts(s));
    if s.len() == 0 {
        assert(s =~= Seq::empty());
    }
    let t = ascii_slug(s);
    assert(t + seq![lowered(c)] =~= t.push(lowered(c)));
    assert(t.push('-') + seq![lowered(c)] =~= t.push('-').push(lowered(c)));
    if t.len() == 0 {
        assert(t.push(lowered(c)) =~= seq![lowered(c)]);
    }
}

// ---- registering ------------------------------------------------------------------------

/// A claim as registering leaves it: with its tag as a slug, and without one where nothing is
/// left of it.
pub open spec fn as_tagged(r: ResponsibilityView) -> ResponsibilityView {
    ResponsibilityView {
        concern: if r.concern is None || slug_of(r.concern->0).len() == 0 {
            None
        } else {
            Some(slug_of(r.concern->0))
        },
        ..r
    }
}

/// Registering leaves a model as it is but for the registry and the tags of the claims: each
/// becomes its slug.
pub proof fn law_registering_only_tags(m: ScryModelView)
    ensures
        registered(m).nodes.len() == m.nodes.len(),
        forall|i: int|
            0 <= i < m.nodes.len() ==> (#[trigger] registered(m).nodes[i]) == (NodeView {
                responsibilities: m.nodes[i].responsibilities.map_values(
                    |r: ResponsibilityView| as_tagged(r),
                ),
                ..m.nodes[i]
            }),
        registered(m).groups.len() == m.groups.len(),
        forall|i: int|
            0 <= i < m.groups.len() ==> (#[trigger] registered(m).groups[i]) == (GroupView {
                responsibilities: m.groups[i].responsibilities.map_values(
                    |r: ResponsibilityView| as_tagged(r),
                ),
                ..m.groups[i]
            }),
        (ScryModelView { nodes: m.nodes, groups: m.groups, concerns: m.concerns, ..registered(m) })
            == m,
{
    let k = registered(m);
    assert forall|i: int| 0 <= i < m.nodes.len() implies (#[trigger] k.nodes[i]) == (NodeView {
        responsibilities: m.nodes[i].responsibilities.map_values(
            |r: ResponsibilityView| as_tagged(r),
        ),
        ..m.nodes[i]
    }) by {
        assert(k.nodes[i].responsibilities =~= m.nodes[i].responsibilities.map_values(
            |r: ResponsibilityView| as_tagged(r),
        ));
    }
    assert forall|i: int| 0 <= i < m.groups.len() implies (#[trigger] k.groups[i]) == (GroupView {
        responsibilities: m.groups[i].responsibilities.map_values(
            |r: ResponsibilityView| as_tagged(r),
        ),
        ..m.groups[i]
    }) by {
        assert(k.groups[i].responsibilities =~= m.groups[i].responsibilities.map_values(
            |r: ResponsibilityView| as_tagged(r),
        ));
    }
}

/// Is one of the claims tagged with the slug?
pub open spec fn tags_one(rs: Seq<ResponsibilityView>, slug: Seq<char>) -> bool {
    exists|j: int|
        0 <= j < rs.len() && (#[trigger] rs[j]).concern is Some && slug.len() > 0 && slug_of(
            rs[j].concern->0,
        ) == slug
}

/// Is a claim of a node or of a group tagged with the slug?
pub open spec fn in_use(m: ScryModelView, slug: Seq<char>) -> bool {
    ||| exists|i: int|
        0 <= i < m.nodes.len() && tags_one((#[trigger] m.nodes[i]).responsibilities, slug)
    ||| exists|i: int|
        0 <= i < m.groups.len() && tags_one((#[trigger] m.groups[i]).responsibilities, slug)
}

proof fn lemma_used_by(rs: Seq<ResponsibilityView>, used: Seq<Seq<char>>, slug: Seq<char>)
    ensures
        used_by_claims(rs, used).contains(slug) <==> used.contains(slug) || tags_one(rs, slug),
    decreases rs.len(),
{
    if rs.len() > 0 {
        let d = rs.drop_last();
        let n = rs.len() - 1;
        lemma_used_by(d, used, slug);
        let before = used_by_claims(d, used);
        let all = used_by_claims(rs, used);
        if tags_one(d, slug) {
            let j = choose|j: int|
                0 <= j < d.len() && (#[trigger] d[j]).concern is Some && slug.len() > 0 && slug_of(
                    d[j].concern->0,
                ) == slug;
            assert(rs[j] == d[j]);
        }
        if clean_tag(rs.last().concern) == Some(slug) {
            assert(rs[n].concern is Some);
            assert(tags_one(rs, slug));
        }
        if tags_one(rs, slug) {
            let j = choose|j: int|
                0 <= j < rs.len() && (#[trigger] rs[j]).concern is Some && slug.len() > 0
                    && slug_of(rs[j].concern->0) == slug;
            if j < n {
                assert(d[j] == rs[j]);
                assert(tags_one(d, slug));
            } else {
                assert(clean_tag(rs.last().concern) == Some(slug));
            }
        }
        if all.len() > before.len() {
            let x = clean_tag(rs.last().concern)->0;
            assert(all[before.len() as int] == x);
            if before.contains(slug) {
                let k = choose|k: int| 0 <= k < before.len() && before[k] == slug;
                assert(all[k] == slug);
            }
            if all.contains(slug) && slug != x {
                let k = choose|k: int| 0 <= k < all.len() && all[k] == slug;
                assert(before[k] == slug);
            }
        }
    }
}

proof fn lemma_used_nodes(ns: Seq<NodeView>, slug: Seq<char>)
    ensures
        used_by_nodes(ns, Seq::empty()).contains(slug) <==> exists|i: int|
            0 <= i < ns.len() && tags_one((#[trigger] ns[i]).responsibilities, slug),
    decreases ns.len(),
{
    if ns.len() > 0 {
        let d = ns.drop_last();
        let n = ns.len() - 1;
        lemma_used_nodes(d, slug);
        lemma_used_by(ns.last().responsibilities, used_by_nodes(d, Seq::empty()), slug);
        if exists|i: int| 0 <= i < d.len() && tags_one((#[trigger] d[i]).responsibilities, slug) {
            let i = choose|i: int|
                0 <= i < d.len() && tags_one((#[trigger] d[i]).responsibilities, slug);
            assert(ns[i] == d[i]);
        }
        assert(ns[n] == ns.last());
        if exists|i: int| 0 <= i < ns.len() && tags_one((#[trigger] ns[i]).responsibilities, slug) {
            let i = choose|i: int|
                0 <= i < ns.len() && tags_one((#[trigger] ns[i]).responsibilities, slug);
            if i < n {
                assert(d[i] == ns[i]);
            }
        }
    }
}

proof fn lemma_used_groups(gs: Seq<GroupView>, used: Seq<Seq<char>>, slug: Seq<char>)
    ensures
        used_by_groups(gs, used).contains(slug) <==> used.contains(slug) || exists|i: int|
            0 <= i < gs.len() && tags_one((#[trigger] gs[i]).responsibilities, slug),
    decreases gs.len(),
{
    if gs.len() > 0 {
        let d = gs.drop_last();
        let n = gs.len() - 1;
        lemma_used_groups(d, used, slug);
        lemma_used_by(gs.last().responsibilities, used_by_groups(d, used), slug);
        if exists|i: int| 0 <= i < d.len() && tags_one((#[trigger] d[i]).responsibilities, slug) {
            let i = choose|i: int|
                0 <= i < d.len() && tags_one((#[trigger] d[i]).responsibilities, slug);
            assert(gs[i] == d[i]);
        }
        assert(gs[n] == gs.last());
        if exists|i: int| 0 <= i < gs.len() && tags_one((#[trigger] gs[i]).responsibilities, slug) {
            let i = choose|i: int|
                0 <= i < gs.len() && tags_one((#[trigger] gs[i]).responsibilities, slug);
            if i < n {
                assert(d[i] == gs[i]);
            }
        }
    }
}

/// Is a concern told as the standard vocabulary tells it, where it has it, and else bare?
pub open spec fn as_standard(d: ConcernDefView) -> bool {
    &&& forall|i: int|
        0 <= i < STANDARD_CONCERNS@.len() && (#[trigger] STANDARD_CONCERNS@[i]).0@ == d.slug
            ==> d.description == Some(STANDARD_CONCERNS@[i].1@) && d.icon == Some(
            STANDARD_CONCERNS@[i].2@,
        )
    &&& (forall|i: int|
        0 <= i < STANDARD_CONCERNS@.len() ==> (#[trigger] STANDARD_CONCERNS@[i]).0@ != d.slug)
        ==> d.description is None && d.icon is None
}

proof fn lemma_standard_apart(i: int, j: int)
    requires
        0 <= i < 8,
        0 <= j < 8,
        STANDARD_CONCERNS@[i].0@ == STANDARD_CONCERNS@[j].0@,
    ensures
        i == j,
{
    reveal_strlit("auth");
    reveal_strlit("persistence");
    reveal_strlit("failure-handling");
    reveal_strlit("idempotency");
    reveal_strlit("validation");
    reveal_strlit("observability");
    reveal_strlit("performance");
    reveal_strlit("compliance");
    let t = STANDARD_CONCERNS@;
    assert(t[0].0@[3] == 'h');
    assert(t[1].0@[3] == 's');
    assert(t[2].0@[3] == 'l');
    assert(t[3].0@[3] == 'm');
    assert(t[4].0@[3] == 'i');
    assert(t[5].0@[3] == 'e');
    assert(t[6].0@[3] == 'f');
    assert(t[7].0@[3] == 'p');
}

proof fn lemma_standard(slug: Seq<char>, i: int)
    requires
        0 <= i <= 8,
    ensures
        i <= standard_from(slug, i) <= 8,
        standard_from(slug, i) < 8 ==> STANDARD_CONCERNS@[standard_from(slug, i)].0@ == slug,
        forall|k: int|
            i <= k < standard_from(slug, i) ==> (#[trigger] STANDARD_CONCERNS@[k]).0@ != slug,
    decreases 8 - i,
{
    assert(STANDARD_CONCERNS@.len() == 8);
    if i < 8 && STANDARD_CONCERNS@[i].0@ != slug {
        lemma_standard(slug, i + 1);
    }
}

proof fn lemma_new_entry(slug: Seq<char>)
    ensures
        new_entry(slug).slug == slug,
        as_standard(new_entry(slug)),
{
    assert(STANDARD_CONCERNS@.len() == 8);
    lemma_standard(slug, 0);
    let p = standard_from(slug, 0);
    assert forall|i: int|
        0 <= i < STANDARD_CONCERNS@.len() && (#[trigger] STANDARD_CONCERNS@[i]).0@
            == slug implies i == p by {
        lemma_standard_apart(i, p);
    }
}

proof fn lemma_one_new(d: ConcernDefView)
    requires
        as_standard(d),
    ensures
        d == new_entry(d.slug),
{
    assert(STANDARD_CONCERNS@.len() == 8);
    lemma_standard(d.slug, 0);
    let p = standard_from(d.slug, 0);
    if p < 8 {
        assert(STANDARD_CONCERNS@[p].0@ == d.slug);
    }
}

proof fn lemma_entered(cs: Seq<ConcernDefView>, slugs: Seq<Seq<char>>, d: ConcernDefView)
    ensures
        has_named::<ConcernDef>(with_entries(cs, slugs), d.slug) <==> has_named::<ConcernDef>(
            cs,
            d.slug,
        ) || slugs.contains(d.slug),
        with_entries(cs, slugs).contains(d) <==> cs.contains(d) || (slugs.contains(d.slug)
            && !has_named::<ConcernDef>(cs, d.slug) && d == new_entry(d.slug)),
    decreases slugs.len(),
{
    if slugs.len() > 0 {
        let e = slugs.drop_last();
        let x = slugs.last();
        lemma_entered(cs, e, d);
        let before = with_entries(cs, e);
        let all = with_entries(cs, slugs);
        let n = slugs.len() - 1;
        assert(slugs[n] == x);
        if e.contains(d.slug) {
            let k = choose|k: int| 0 <= k < e.len() && e[k] == d.slug;
            assert(slugs[k] == d.slug);
        }
        if slugs.contains(d.slug) && d.slug != x {
            let k = choose|k: int| 0 <= k < slugs.len() && slugs[k] == d.slug;
            assert(e[k] == d.slug);
        }
        if !has_named::<ConcernDef>(before, x) {
            let y = new_entry(x);
            lemma_new_entry(x);
            assert(all == before.push(y));
            assert(all[before.len() as int] == y);
            assert(ConcernDef::name_of(all[before.len() as int]) == x);
            if before.contains(d) {
                let k = choose|k: int| 0 <= k < before.len() && before[k] == d;
                assert(all[k] == d);
            }
            if all.contains(d) && d != y {
                let k = choose|k: int| 0 <= k < all.len() && all[k] == d;
                assert(before[k] == d);
            }
            if has_named::<ConcernDef>(before, d.slug) {
                let k = choose|k: int|
                    0 <= k < before.len() && ConcernDef::name_of(#[trigger] before[k]) == d.slug;
                assert(ConcernDef::name_of(all[k]) == d.slug);
            }
            if has_named::<ConcernDef>(all, d.slug) && d.slug != x {
                let k = choose|k: int|
                    0 <= k < all.len() && ConcernDef::name_of(#[trigger] all[k]) == d.slug;
                assert(ConcernDef::name_of(before[k]) == d.slug);
            }
            lemma_named_as_is(cs, before, e, x);
        } else {
            lemma_named_as_is(cs, before, e, x);
        }
    }
}

proof fn lemma_named_as_is(
    cs: Seq<ConcernDefView>,
    before: Seq<ConcernDefView>,
    e: Seq<Seq<char>>,
    x: Seq<char>,
)
    requires
        before == with_entries(cs, e),
    ensures
        has_named::<ConcernDef>(before, x) <==> has_named::<ConcernDef>(cs, x) || e.contains(x),
    decreases e.len(), 0int,
{
    lemma_name_entered(cs, e, x);
}

proof fn lemma_name_entered(cs: Seq<ConcernDefView>, slugs: Seq<Seq<char>>, x: Seq<char>)
    ensures
        has_named::<ConcernDef>(with_entries(cs, slugs), x) <==> has_named::<ConcernDef>(cs, x)
            || slugs.contains(x),
    decreases slugs.len(),
{
    if slugs.len() > 0 {
        let e = slugs.drop_last();
        let y = slugs.last();
        lemma_name_entered(cs, e, x);
        let before = with_entries(cs, e);
        let all = with_entries(cs, slugs);
        let n = slugs.len() - 1;
        assert(slugs[n] == y);
        if e.contains(x) {
            let k = choose|k: int| 0 <= k < e.len() && e[k] == x;
            assert(slugs[k] == x);
        }
        if slugs.contains(x) && x != y {
            let k = choose|k: int| 0 <= k < slugs.len() && slugs[k] == x;
            assert(e[k] == x);
        }
        if !has_named::<ConcernDef>(before, y) {
            assert(all[before.len() as int] == new_entry(y));
            lemma_new_entry(y);
            assert(ConcernDef::name_of(all[before.len() as int]) == y);
            if has_named::<ConcernDef>(before, x) {
                let k = choose|k: int|
                    0 <= k < before.len() && ConcernDef::name_of(#[trigger] before[k]) == x;
                assert(ConcernDef::name_of(all[k]) == x);
            }
            if has_named::<ConcernDef>(all, x) && x != y {
                let k = choose|k: int|
                    0 <= k < all.len() && ConcernDef::name_of(#[trigger] all[k]) == x;
                assert(ConcernDef::name_of(before[k]) == x);
            }
        }
    }
}

/// The registry has what it had, and of each slug in use that it did not have the entry of the
/// standard vocabulary, or a bare one; nothing else.
pub proof fn law_what_is_registered(m: ScryModelView, d: ConcernDefView)
    ensures
        registered(m).concerns.contains(d) <==> m.concerns.contains(d) || (in_use(m, d.slug)
            && !has_named::<ConcernDef>(m.concerns, d.slug) && as_standard(d)),
{
    broadcast use vstd::seq_lib::group_to_multiset_ensures;

    let used = slugs_in_use(m);
    let list = with_entries(m.concerns, used);
    lemma_used_nodes(m.nodes, d.slug);
    lemma_used_groups(m.groups, used_by_nodes(m.nodes, Seq::empty()), d.slug);
    lemma_entered(m.concerns, used, d);
    lemma_new_entry(d.slug);
    if as_standard(d) {
        lemma_one_new(d);
    }
    law_sorting_by_name::<ConcernDef>(list);
    let s = sorted_by::<ConcernDef>(list);
    assert(s.to_multiset().count(d) == list.to_multiset().count(d));
    assert(s.contains(d) <==> s.to_multiset().count(d) > 0);
    assert(list.contains(d) <==> list.to_multiset().count(d) > 0);
}

// ---- syncing ----------------------------------------------------------------------------

/// Do the claims hold one of this id with this tag?
pub open spec fn gives_tag(
    rs: Seq<ResponsibilityView>,
    id: Seq<char>,
    tag: Option<Seq<char>>,
) -> bool {
    exists|j: int| 0 <= j < rs.len() && (#[trigger] rs[j]).id == id && rs[j].concern == tag
}

/// Does a model hold a claim of this id with this tag?
pub open spec fn plans_tag(m: ScryModelView, id: Seq<char>, tag: Option<Seq<char>>) -> bool {
    ||| exists|i: int|
        0 <= i < m.nodes.len() && gives_tag((#[trigger] m.nodes[i]).responsibilities, id, tag)
    ||| exists|i: int|
        0 <= i < m.groups.len() && gives_tag((#[trigger] m.groups[i]).responsibilities, id, tag)
}

proof fn lemma_tag_in(
    rs: Seq<ResponsibilityView>,
    id: Seq<char>,
    before: Option<Option<Seq<char>>>,
)
    ensures
        tag_in_claims(rs, id, before) == before && (forall|t: Option<Seq<char>>|
            !#[trigger] gives_tag(rs, id, t)) || tag_in_claims(rs, id, before) is Some && gives_tag(
            rs,
            id,
            tag_in_claims(rs, id, before)->0,
        ),
    decreases rs.len(),
{
    if rs.len() > 0 {
        let d = rs.drop_last();
        let n = rs.len() - 1;
        lemma_tag_in(d, id, before);
        assert(rs[n] == rs.last());
        if rs.last().id != id {
            let t = tag_in_claims(rs, id, before);
            if t is Some && gives_tag(d, id, t->0) {
                let j = choose|j: int|
                    0 <= j < d.len() && (#[trigger] d[j]).id == id && d[j].concern == t->0;
                assert(rs[j] == d[j]);
            }
            assert forall|t: Option<Seq<char>>| #[trigger] gives_tag(rs, id, t) implies gives_tag(
                d,
                id,
                t,
            ) by {
                let j = choose|j: int|
                    0 <= j < rs.len() && (#[trigger] rs[j]).id == id && rs[j].concern == t;
                assert(d[j] == rs[j]);
            }
        }
    }
}

proof fn lemma_tag_nodes(ns: Seq<NodeView>, id: Seq<char>) -> (i: int)
    ensures
        tag_in_nodes(ns, id) is Some ==> 0 <= i < ns.len() && gives_tag(
            ns[i].responsibilities,
            id,
            tag_in_nodes(ns, id)->0,
        ),
        tag_in_nodes(ns, id) is None ==> forall|k: int, t: Option<Seq<char>>|
            0 <= k < ns.len() ==> !#[trigger] gives_tag(ns[k].responsibilities, id, t),
    decreases ns.len(),
{
    if ns.len() == 0 {
        0
    } else {
        let d = ns.drop_last();
        let n = ns.len() - 1;
        let i = lemma_tag_nodes(d, id);
        lemma_tag_in(ns.last().responsibilities, id, tag_in_nodes(d, id));
        let t = tag_in_nodes(ns, id);
        if t is None {
            assert forall|k: int, t: Option<Seq<char>>| 0 <= k < ns.len() implies !#[trigger]
            gives_tag(ns[k].responsibilities, id, t) by {
                if k < n {
                    assert(ns[k] == d[k]);
                    assert(!gives_tag(d[k].responsibilities, id, t));
                }
            }
            0
        } else if gives_tag(ns.last().responsibilities, id, t->0) {
            n
        } else {
            assert(ns[i] == d[i]);
            i
        }
    }
}

proof fn lemma_tag_groups(gs: Seq<GroupView>, id: Seq<char>, before: Option<Option<Seq<char>>>) -> (
    i: int)
    ensures
        0 <= i < gs.len() && tag_in_groups(gs, id, before) is Some && gives_tag(
            gs[i].responsibilities,
            id,
            tag_in_groups(gs, id, before)->0,
        ) || tag_in_groups(gs, id, before) == before && (forall|k: int, t: Option<Seq<char>>|
            0 <= k < gs.len() ==> !#[trigger] gives_tag(gs[k].responsibilities, id, t)),
    decreases gs.len(),
{
    if gs.len() == 0 {
        0
    } else {
        let d = gs.drop_last();
        let n = gs.len() - 1;
        let i = lemma_tag_groups(d, id, before);
        let mid = tag_in_groups(d, id, before);
        lemma_tag_in(gs.last().responsibilities, id, mid);
        let t = tag_in_groups(gs, id, before);
        if t is Some && gives_tag(gs.last().responsibilities, id, t->0) {
            n
        } else {
            assert(t == mid);
            if 0 <= i < d.len() && mid is Some && gives_tag(d[i].responsibilities, id, mid->0) {
                assert(gs[i] == d[i]);
            } else {
                assert forall|k: int, t: Option<Seq<char>>| 0 <= k < gs.len() implies !#[trigger]
                gives_tag(gs[k].responsibilities, id, t) by {
                    if k < n {
                        assert(gs[k] == d[k]);
                        assert(!gives_tag(d[k].responsibilities, id, t));
                    }
                }
            }
            i
        }
    }
}

proof fn lemma_tag_of(p: ScryModelView, id: Seq<char>)
    ensures
        tag_of(p, id) is Some ==> plans_tag(p, id, tag_of(p, id)->0),
        tag_of(p, id) is None ==> forall|t: Option<Seq<char>>| !#[trigger] plans_tag(p, id, t),
{
    let before = tag_in_nodes(p.nodes, id);
    let i = lemma_tag_nodes(p.nodes, id);
    let j = lemma_tag_groups(p.groups, id, before);
    let t = tag_of(p, id);
    if t is Some {
        if 0 <= j < p.groups.len() && gives_tag(p.groups[j].responsibilities, id, t->0) {
            assert(plans_tag(p, id, t->0));
        } else {
            assert(t == before);
            assert(gives_tag(p.nodes[i].responsibilities, id, t->0));
        }
    } else {
        assert forall|t: Option<Seq<char>>| !#[trigger] plans_tag(p, id, t) by {
            assert forall|k: int| 0 <= k < p.nodes.len() implies !gives_tag(
                (#[trigger] p.nodes[k]).responsibilities,
                id,
                t,
            ) by {}
            assert forall|k: int| 0 <= k < p.groups.len() implies !gives_tag(
                (#[trigger] p.groups[k]).responsibilities,
                id,
                t,
            ) by {}
        }
    }
}

/// Is a claim, but for its tag, as it was, and tagged as the plan tags one of its id, or as it
/// was where the plan has none?
pub open spec fn tagged_as_planned(
    p: ScryModelView,
    r: ResponsibilityView,
    was: ResponsibilityView,
) -> bool {
    &&& r == (ResponsibilityView { concern: r.concern, ..was })
    &&& plans_tag(p, was.id, r.concern) || (forall|t: Option<Seq<char>>|
        !#[trigger] plans_tag(p, was.id, t)) && r.concern == was.concern
}

/// Syncing takes over the registry of the plan and the tags that the plan gives the claims, on
/// nodes and on groups alike, and leaves everything else as it is.
pub proof fn law_syncing_takes_the_planned_tags(c: ScryModelView, p: ScryModelView)
    ensures
        synced(c, p).concerns == p.concerns,
        (ScryModelView { nodes: c.nodes, groups: c.groups, concerns: c.concerns, ..synced(c, p) })
            == c,
        synced(c, p).nodes.len() == c.nodes.len(),
        forall|i: int|
            0 <= i < c.nodes.len() ==> {
                let n = #[trigger] synced(c, p).nodes[i];
                &&& n == (NodeView { responsibilities: n.responsibilities, ..c.nodes[i] })
                &&& n.responsibilities.len() == c.nodes[i].responsibilities.len()
                &&& forall|j: int|
                    0 <= j < n.responsibilities.len() ==> tagged_as_planned(
                        p,
                        #[trigger] n.responsibilities[j],
                        c.nodes[i].responsibilities[j],
                    )
            },
        synced(c, p).groups.len() == c.groups.len(),
        forall|i: int|
            0 <= i < c.groups.len() ==> {
                let g = #[trigger] synced(c, p).groups[i];
                &&& g == (GroupView { responsibilities: g.responsibilities, ..c.groups[i] })
                &&& g.responsibilities.len() == c.groups[i].responsibilities.len()
                &&& forall|j: int|
                    0 <= j < g.responsibilities.len() ==> tagged_as_planned(
                        p,
                        #[trigger] g.responsibilities[j],
                        c.groups[i].responsibilities[j],
                    )
            },
{
    let s = synced(c, p);
    assert forall|i: int, j: int|
        0 <= i < c.nodes.len() && 0 <= j < c.nodes[i].responsibilities.len() implies
        tagged_as_planned(
        p,
        #[trigger] s.nodes[i].responsibilities[j],
        c.nodes[i].responsibilities[j],
    ) by {
        lemma_tag_of(p, c.nodes[i].responsibilities[j].id);
    }
    assert forall|i: int, j: int|
        0 <= i < c.groups.len() && 0 <= j < c.groups[i].responsibilities.len() implies
        tagged_as_planned(
        p,
        #[trigger] s.groups[i].responsibilities[j],
        c.groups[i].responsibilities[j],
    ) by {
        lemma_tag_of(p, c.groups[i].responsibilities[j].id);
    }
}

} // verus!
