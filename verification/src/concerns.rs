//! Cross-cutting concerns: the registry, and the tags that refer to it.
//!
//! A claim carries at most one concern, by its slug; the registry names every slug in
//! use. Entries are made on first use and never dropped by themselves: one without a
//! tagged claim says something too.

use crate::letters::{
    all_ascii, alphanumeric, ascii_alnum, ascii_as_usual, is_alnum, is_ascii, learn_ascii,
    lower_chars, lowercase_char, lowered,
};
use crate::model::{
    Group, GroupView, Node, NodeView, Responsibility, ResponsibilityView, ScryModel, ScryModelView,
};
use crate::modelled::{at, fresh, put, Modelled};
use crate::named::{
    has_named, law_sorting_by_name, ordered_by, sort_by_name, sorted_by, there, Named,
};
use crate::text::{chars_of, holds, lex_lt, same_text, text_of};
use vstd::prelude::*;
use vstd::string::*;

verus! {

/// A registered concern.
#[derive(Debug, PartialEq)]
pub struct ConcernDef {
    pub slug: String,
    pub description: Option<String>,
    pub icon: Option<String>,
}

/// The model of a [`ConcernDef`].
#[verifier::ext_equal]
pub struct ConcernDefView {
    pub slug: Seq<char>,
    pub description: Option<Seq<char>>,
    pub icon: Option<Seq<char>>,
}

impl DeepView for ConcernDef {
    type V = ConcernDefView;

    open spec fn deep_view(&self) -> ConcernDefView {
        ConcernDefView {
            slug: self.slug.deep_view(),
            description: self.description.deep_view(),
            icon: self.icon.deep_view(),
        }
    }
}

impl Modelled for ConcernDef {
    fn dup(&self) -> (r: Self) {
        ConcernDef {
            slug: self.slug.dup(),
            description: self.description.dup(),
            icon: self.icon.dup(),
        }
    }

    fn same(&self, other: &Self) -> (r: bool) {
        self.slug.same(&other.slug)
            && self.description.same(&other.description)
            && self.icon.same(&other.icon)
    }
}

impl Clone for ConcernDef {
    fn clone(&self) -> (r: Self)
        ensures
            r.deep_view() == self.deep_view(),
    {
        self.dup()
    }
}

impl Named for ConcernDef {
    open spec fn name_of(v: ConcernDefView) -> Seq<char> {
        v.slug
    }

    fn found_by(&self) -> (r: &String) {
        &self.slug
    }
}

/// The standard vocabulary: slug, description, icon. A slug of these gets its
/// description and icon when it is registered.
pub const STANDARD_CONCERNS: [(&'static str, &'static str, &'static str); 8] = [
    ("auth", "Identity, authentication, and access control", "Shield"),
    ("persistence", "Durable storage and retrieval of data", "Database"),
    ("failure-handling", "Detecting, capturing, and recovering from failures", "AlertTriangle"),
    ("idempotency", "Making retries and duplicate deliveries safe", "Repeat"),
    ("validation", "Checking inputs against expected shape and rules", "CheckCircle"),
    ("observability", "Logging, metrics, and tracing for runtime insight", "Activity"),
    ("performance", "Speed, capacity, and resource efficiency", "Gauge"),
    ("compliance", "Satisfying external policy, legal, or platform rules", "Scale"),
];

// ---- slugs ----------------------------------------------------------------------------

/// What a slug is made of so far, and whether a separator has been met since its last
/// letter. A part is a letter in lower case, or nothing for a separator.
pub open spec fn slug_state(parts: Seq<Option<Seq<char>>>) -> (Seq<char>, bool)
    decreases parts.len(),
{
    if parts.len() == 0 {
        (Seq::empty(), false)
    } else {
        let (out, pending) = slug_state(parts.drop_last());
        match parts.last() {
            Some(cs) => {
                let joint = if pending && out.len() > 0 {
                    out.push('-')
                } else {
                    out
                };
                (joint + cs, false)
            },
            None => (out, true),
        }
    }
}

/// The letters joined, with one hyphen for every run of separators between them.
pub open spec fn kebab_of(parts: Seq<Option<Seq<char>>>) -> Seq<char> {
    slug_state(parts).0
}

/// The letters and separators of a text.
pub open spec fn parts_of(raw: Seq<char>) -> Seq<Option<Seq<char>>> {
    Seq::new(
        raw.len(),
        |i: int|
            if is_alnum(raw[i]) {
                Some(lower_chars(raw[i]))
            } else {
                None
            },
    )
}

/// The slug of a text.
pub open spec fn slug_of(raw: Seq<char>) -> Seq<char> {
    kebab_of(parts_of(raw))
}

/// The letters and separators of an ASCII text.
pub open spec fn ascii_parts(raw: Seq<char>) -> Seq<Option<Seq<char>>> {
    Seq::new(
        raw.len(),
        |i: int|
            if ascii_alnum(raw[i]) {
                Some(seq![lowered(raw[i])])
            } else {
                None
            },
    )
}

/// The slug of an ASCII text.
pub open spec fn ascii_slug(raw: Seq<char>) -> Seq<char> {
    kebab_of(ascii_parts(raw))
}

/// The letters joined, with one hyphen for every run of separators between them.
pub fn kebab(parts: &Vec<Option<String>>) -> (r: String)
    ensures
        r@ == kebab_of(parts.deep_view()),
{
    let ghost v = parts.deep_view();
    let mut out = String::new();
    let mut pending = false;
    let mut empty = true;
    let mut i: usize = 0;
    assert(v.take(0) =~= Seq::<Option<Seq<char>>>::empty());
    assert(out@ =~= Seq::<char>::empty());
    while i < parts.len()
        invariant
            i <= parts@.len(),
            v == parts.deep_view(),
            (out@, pending) == slug_state(v.take(i as int)),
            empty == (out@.len() == 0),
        decreases parts@.len() - i,
    {
        assert(v.take(i + 1).drop_last() =~= v.take(i as int));
        assert(v.take(i + 1).last() == v[i as int]);
        match at(parts, i) {
            Some(cs) => {
                if pending && !empty {
                    out.push('-');
                }
                out.append(cs.as_str());
                pending = false;
                empty = out.as_str().unicode_len() == 0;
            },
            None => {
                pending = true;
            },
        }
        i += 1;
    }
    assert(v.take(v.len() as int) =~= v);
    out
}

/// The slug of a text: in lower case, with one hyphen for every run of characters that
/// are neither letters nor digits, and none at the ends. Empty for a text without any.
pub fn normalize_slug(raw: &str) -> (r: String)
    ensures
        r@ == slug_of(raw@),
        all_ascii(raw@) ==> r@ == ascii_slug(raw@),
{
    let v = chars_of(raw);
    let mut parts: Vec<Option<String>> = fresh();
    let ghost want = parts_of(raw@);
    let ghost plain = ascii_parts(raw@);
    let mut i: usize = 0;
    assert(want.take(0) =~= Seq::<Option<Seq<char>>>::empty());
    assert(plain.take(0) =~= Seq::<Option<Seq<char>>>::empty());
    while i < v.len()
        invariant
            i <= v@.len(),
            v@ == raw@,
            want == parts_of(raw@),
            plain == ascii_parts(raw@),
            parts.deep_view() == want.take(i as int),
            all_ascii(raw@) ==> parts.deep_view() == plain.take(i as int),
        decreases v@.len() - i,
    {
        let c = v[i];
        let part: Option<String> = if alphanumeric(c) {
            let ls = lowercase_char(c);
            let s = text_of(&ls, 0, ls.len());
            assert(s@ =~= lower_chars(c));
            Some(s)
        } else {
            None
        };
        put(&mut parts, part);
        proof {
            assert(is_ascii(raw@[i as int]) || !all_ascii(raw@));
            assert(want.take(i + 1) =~= want.take(i as int).push(want[i as int]));
            assert(plain.take(i + 1) =~= plain.take(i as int).push(plain[i as int]));
        }
        i += 1;
    }
    assert(want.take(want.len() as int) =~= want);
    assert(plain.take(plain.len() as int) =~= plain);
    kebab(&parts)
}

// ---- the registry ---------------------------------------------------------------------

/// The tag as it is kept: its slug, and none for a tag without a letter.
pub open spec fn clean_tag(tag: Option<Seq<char>>) -> Option<Seq<char>> {
    match tag {
        Some(raw) => if slug_of(raw).len() == 0 {
            None
        } else {
            Some(slug_of(raw))
        },
        None => None,
    }
}

/// The claims with their tags as they are kept.
pub open spec fn clean_claims(rs: Seq<ResponsibilityView>) -> Seq<ResponsibilityView> {
    Seq::new(rs.len(), |i: int| ResponsibilityView { concern: clean_tag(rs[i].concern), ..rs[i] })
}

/// `used`, and the slugs of the claims that are not in it, in the order of their first use.
pub open spec fn used_by_claims(
    rs: Seq<ResponsibilityView>,
    used: Seq<Seq<char>>,
) -> Seq<Seq<char>>
    decreases rs.len(),
{
    if rs.len() == 0 {
        used
    } else {
        let before = used_by_claims(rs.drop_last(), used);
        match clean_tag(rs.last().concern) {
            Some(slug) => if before.contains(slug) {
                before
            } else {
                before.push(slug)
            },
            None => before,
        }
    }
}

/// `used`, and the slugs of the nodes' claims.
pub open spec fn used_by_nodes(ns: Seq<NodeView>, used: Seq<Seq<char>>) -> Seq<Seq<char>>
    decreases ns.len(),
{
    if ns.len() == 0 {
        used
    } else {
        used_by_claims(ns.last().responsibilities, used_by_nodes(ns.drop_last(), used))
    }
}

/// `used`, and the slugs of the groups' claims.
pub open spec fn used_by_groups(gs: Seq<GroupView>, used: Seq<Seq<char>>) -> Seq<Seq<char>>
    decreases gs.len(),
{
    if gs.len() == 0 {
        used
    } else {
        used_by_claims(gs.last().responsibilities, used_by_groups(gs.drop_last(), used))
    }
}

/// The slugs in use, in the order of their first use.
pub open spec fn slugs_in_use(m: ScryModelView) -> Seq<Seq<char>> {
    used_by_groups(m.groups, used_by_nodes(m.nodes, Seq::empty()))
}

/// The place of a slug in the standard vocabulary, from `i` on.
pub open spec fn standard_from(slug: Seq<char>, i: int) -> int
    decreases STANDARD_CONCERNS@.len() - i,
{
    if i >= STANDARD_CONCERNS@.len() || STANDARD_CONCERNS@[i].0@ == slug {
        i
    } else {
        standard_from(slug, i + 1)
    }
}

/// A new entry of the registry: decorated where the slug is a standard one, else bare.
pub open spec fn new_entry(slug: Seq<char>) -> ConcernDefView {
    let i = standard_from(slug, 0);
    if i < STANDARD_CONCERNS@.len() {
        ConcernDefView {
            slug,
            description: Some(STANDARD_CONCERNS@[i].1@),
            icon: Some(STANDARD_CONCERNS@[i].2@),
        }
    } else {
        ConcernDefView { slug, description: None, icon: None }
    }
}

/// The registry with an entry for each of the slugs that had none.
pub open spec fn with_entries(
    cs: Seq<ConcernDefView>,
    slugs: Seq<Seq<char>>,
) -> Seq<ConcernDefView>
    decreases slugs.len(),
{
    if slugs.len() == 0 {
        cs
    } else {
        let before = with_entries(cs, slugs.drop_last());
        if has_named::<ConcernDef>(before, slugs.last()) {
            before
        } else {
            before.push(new_entry(slugs.last()))
        }
    }
}

/// A model with its tags as they are kept and an entry for every slug in use; the
/// registry sorted by slug.
pub open spec fn registered(m: ScryModelView) -> ScryModelView {
    ScryModelView {
        nodes: Seq::new(
            m.nodes.len(),
            |i: int|
                NodeView {
                    responsibilities: clean_claims(m.nodes[i].responsibilities),
                    ..m.nodes[i]
                },
        ),
        groups: Seq::new(
            m.groups.len(),
            |i: int|
                GroupView {
                    responsibilities: clean_claims(m.groups[i].responsibilities),
                    ..m.groups[i]
                },
        ),
        concerns: sorted_by::<ConcernDef>(with_entries(m.concerns, slugs_in_use(m))),
        ..m
    }
}

fn tag_cleaned(tag: &Option<String>) -> (r: Option<String>)
    ensures
        r.deep_view() == clean_tag(tag.deep_view()),
{
    match tag {
        Some(raw) => {
            let slug = normalize_slug(raw.as_str());
            if slug.as_str().unicode_len() == 0 {
                None
            } else {
                Some(slug)
            }
        },
        None => None,
    }
}

fn clean(rs: &Vec<Responsibility>, used: &mut Vec<String>) -> (r: Vec<Responsibility>)
    ensures
        r.deep_view() == clean_claims(rs.deep_view()),
        final(used).deep_view() == used_by_claims(rs.deep_view(), old(used).deep_view()),
{
    let ghost v = rs.deep_view();
    let ghost u0 = used.deep_view();
    let ghost want = clean_claims(v);
    let mut out: Vec<Responsibility> = fresh();
    let mut i: usize = 0;
    assert(v.take(0) =~= Seq::<ResponsibilityView>::empty());
    assert(want.take(0) =~= Seq::<ResponsibilityView>::empty());
    while i < rs.len()
        invariant
            i <= rs@.len(),
            v == rs.deep_view(),
            want == clean_claims(v),
            out.deep_view() == want.take(i as int),
            used.deep_view() == used_by_claims(v.take(i as int), u0),
        decreases rs@.len() - i,
    {
        let mut r = at(rs, i).dup();
        assert(v.take(i + 1).drop_last() =~= v.take(i as int));
        let tag = tag_cleaned(&r.concern);
        match &tag {
            Some(slug) => {
                if !holds(used, slug.as_str()) {
                    put(used, slug.clone());
                }
            },
            None => {},
        }
        r.concern = tag;
        proof {
            assert(r.deep_view() == want[i as int]);
            assert(want.take(i + 1) =~= want.take(i as int).push(want[i as int]));
        }
        put(&mut out, r);
        i += 1;
    }
    assert(v.take(v.len() as int) =~= v);
    assert(want.take(want.len() as int) =~= want);
    out
}

fn mint_entry(slug: &str) -> (r: ConcernDef)
    ensures
        r.deep_view() == new_entry(slug@),
{
    let mut i: usize = 0;
    while i < STANDARD_CONCERNS.len()
        invariant
            i <= STANDARD_CONCERNS@.len(),
            standard_from(slug@, 0) == standard_from(slug@, i as int),
        decreases STANDARD_CONCERNS@.len() - i,
    {
        let row = STANDARD_CONCERNS[i];
        if same_text(row.0, slug) {
            return ConcernDef {
                slug: slug.to_owned(),
                description: Some(row.1.to_owned()),
                icon: Some(row.2.to_owned()),
            };
        }
        i += 1;
    }
    ConcernDef { slug: slug.to_owned(), description: None, icon: None }
}

/// Puts every claim's tag into the form of a slug and gives each slug in use an entry in
/// the registry. Entries that are there are not touched, entries without a use are not
/// dropped, and the registry is kept sorted by slug. Where the tags are ASCII texts, a
/// second call changes nothing.
pub fn register_concerns(model: &mut ScryModel)
    ensures
        final(model).deep_view() == registered(old(model).deep_view()),
        tags_ascii(old(model).deep_view()) ==> registered(final(model).deep_view())
            == final(model).deep_view(),
{
    learn_ascii();
    let ghost m = model.deep_view();
    let ghost ns = m.nodes;
    let ghost gs = m.groups;
    let ghost want = registered(m);
    let mut used: Vec<String> = fresh();
    let mut nodes: Vec<Node> = fresh();
    let mut i: usize = 0;
    assert(ns.take(0) =~= Seq::<NodeView>::empty());
    assert(want.nodes.take(0) =~= Seq::<NodeView>::empty());
    while i < model.nodes.len()
        invariant
            i <= model.nodes@.len(),
            m == model.deep_view(),
            ns == m.nodes,
            want == registered(m),
            nodes.deep_view() == want.nodes.take(i as int),
            used.deep_view() == used_by_nodes(ns.take(i as int), Seq::empty()),
        decreases model.nodes@.len() - i,
    {
        let mut n = at(&model.nodes, i).dup();
        assert(ns.take(i + 1).drop_last() =~= ns.take(i as int));
        let rs = clean(&n.responsibilities, &mut used);
        n.responsibilities = rs;
        proof {
            assert(n.deep_view() == want.nodes[i as int]);
            assert(want.nodes.take(i + 1) =~= want.nodes.take(i as int).push(
                want.nodes[i as int],
            ));
        }
        put(&mut nodes, n);
        i += 1;
    }
    assert(ns.take(ns.len() as int) =~= ns);
    assert(want.nodes.take(ns.len() as int) =~= want.nodes);
    let ghost u1 = used.deep_view();
    let mut groups: Vec<Group> = fresh();
    i = 0;
    assert(gs.take(0) =~= Seq::<GroupView>::empty());
    assert(want.groups.take(0) =~= Seq::<GroupView>::empty());
    while i < model.groups.len()
        invariant
            i <= model.groups@.len(),
            m == model.deep_view(),
            gs == m.groups,
            want == registered(m),
            groups.deep_view() == want.groups.take(i as int),
            used.deep_view() == used_by_groups(gs.take(i as int), u1),
        decreases model.groups@.len() - i,
    {
        let mut g = at(&model.groups, i).dup();
        assert(gs.take(i + 1).drop_last() =~= gs.take(i as int));
        let rs = clean(&g.responsibilities, &mut used);
        g.responsibilities = rs;
        proof {
            assert(g.deep_view() == want.groups[i as int]);
            assert(want.groups.take(i + 1) =~= want.groups.take(i as int).push(
                want.groups[i as int],
            ));
        }
        put(&mut groups, g);
        i += 1;
    }
    assert(gs.take(gs.len() as int) =~= gs);
    assert(want.groups.take(gs.len() as int) =~= want.groups);
    let mut concerns = model.concerns.dup();
    let ghost uv = used.deep_view();
    i = 0;
    assert(uv.take(0) =~= Seq::<Seq<char>>::empty());
    while i < used.len()
        invariant
            i <= used@.len(),
            uv == used.deep_view(),
            concerns.deep_view() == with_entries(m.concerns, uv.take(i as int)),
        decreases used@.len() - i,
    {
        let slug = at(&used, i);
        assert(uv.take(i + 1).drop_last() =~= uv.take(i as int));
        if !there(&concerns, slug.as_str()) {
            put(&mut concerns, mint_entry(slug.as_str()));
        }
        i += 1;
    }
    assert(uv.take(uv.len() as int) =~= uv);
    model.nodes = nodes;
    model.groups = groups;
    model.concerns = sort_by_name(&concerns);
    proof {
        if tags_ascii(m) {
            law_registering_twice(m);
        }
    }
}

// ---- write-through --------------------------------------------------------------------

/// The tag of the last of the claims called `id`; `before` where there is none.
pub open spec fn tag_in_claims(
    rs: Seq<ResponsibilityView>,
    id: Seq<char>,
    before: Option<Option<Seq<char>>>,
) -> Option<Option<Seq<char>>>
    decreases rs.len(),
{
    if rs.len() == 0 {
        before
    } else if rs.last().id == id {
        Some(rs.last().concern)
    } else {
        tag_in_claims(rs.drop_last(), id, before)
    }
}

/// The tag of the last of the nodes' claims called `id`.
pub open spec fn tag_in_nodes(ns: Seq<NodeView>, id: Seq<char>) -> Option<Option<Seq<char>>>
    decreases ns.len(),
{
    if ns.len() == 0 {
        None
    } else {
        tag_in_claims(ns.last().responsibilities, id, tag_in_nodes(ns.drop_last(), id))
    }
}

/// The tag of the last of the groups' claims called `id`; `before` where there is none.
pub open spec fn tag_in_groups(
    gs: Seq<GroupView>,
    id: Seq<char>,
    before: Option<Option<Seq<char>>>,
) -> Option<Option<Seq<char>>>
    decreases gs.len(),
{
    if gs.len() == 0 {
        before
    } else {
        tag_in_claims(gs.last().responsibilities, id, tag_in_groups(gs.drop_last(), id, before))
    }
}

/// The tag that a model gives the claim called `id`, where it has it.
pub open spec fn tag_of(m: ScryModelView, id: Seq<char>) -> Option<Option<Seq<char>>> {
    tag_in_groups(m.groups, id, tag_in_nodes(m.nodes, id))
}

/// The claims with the tags that the plan gives them.
pub open spec fn retagged_claims(
    p: ScryModelView,
    rs: Seq<ResponsibilityView>,
) -> Seq<ResponsibilityView> {
    Seq::new(
        rs.len(),
        |i: int|
            match tag_of(p, rs[i].id) {
                Some(tag) => ResponsibilityView { concern: tag, ..rs[i] },
                None => rs[i],
            },
    )
}

/// The committed model with the tags of the plan and its registry.
pub open spec fn synced(c: ScryModelView, p: ScryModelView) -> ScryModelView {
    ScryModelView {
        nodes: Seq::new(
            c.nodes.len(),
            |i: int|
                NodeView {
                    responsibilities: retagged_claims(p, c.nodes[i].responsibilities),
                    ..c.nodes[i]
                },
        ),
        groups: Seq::new(
            c.groups.len(),
            |i: int|
                GroupView {
                    responsibilities: retagged_claims(p, c.groups[i].responsibilities),
                    ..c.groups[i]
                },
        ),
        concerns: p.concerns,
        ..c
    }
}

fn last_tag(rs: &Vec<Responsibility>, id: &str) -> (r: Option<Option<String>>)
    ensures
        match r {
            Some(tag) => forall|b: Option<Option<Seq<char>>>| #[trigger]
                tag_in_claims(rs.deep_view(), id@, b) == Some(tag.deep_view()),
            None => forall|b: Option<Option<Seq<char>>>| #[trigger]
                tag_in_claims(rs.deep_view(), id@, b) == b,
        },
{
    let ghost v = rs.deep_view();
    let mut i: usize = rs.len();
    assert(v.take(v.len() as int) =~= v);
    while i > 0
        invariant
            i <= rs@.len(),
            v == rs.deep_view(),
            forall|b: Option<Option<Seq<char>>>| #[trigger]
                tag_in_claims(v, id@, b) == tag_in_claims(v.take(i as int), id@, b),
        decreases i,
    {
        i -= 1;
        let r = at(rs, i);
        assert(v.take(i + 1).drop_last() =~= v.take(i as int));
        assert(v.take(i + 1).last() == r.deep_view());
        if same_text(r.id.as_str(), id) {
            return Some(r.concern.dup());
        }
    }
    None
}

fn planned_tag(p: &ScryModel, id: &str) -> (r: Option<Option<String>>)
    ensures
        match r {
            Some(tag) => tag_of(p.deep_view(), id@) == Some(tag.deep_view()),
            None => tag_of(p.deep_view(), id@) is None,
        },
{
    let ghost ns = p.nodes.deep_view();
    let ghost gs = p.groups.deep_view();
    let ghost below = tag_in_nodes(ns, id@);
    let mut i: usize = p.groups.len();
    assert(gs.take(gs.len() as int) =~= gs);
    while i > 0
        invariant
            i <= p.groups@.len(),
            gs == p.groups.deep_view(),
            tag_in_groups(gs, id@, below) == tag_in_groups(gs.take(i as int), id@, below),
            below == tag_in_nodes(ns, id@),
            ns == p.nodes.deep_view(),
        decreases i,
    {
        i -= 1;
        let g = at(&p.groups, i);
        assert(gs.take(i + 1).drop_last() =~= gs.take(i as int));
        assert(gs.take(i + 1).last() == g.deep_view());
        match last_tag(&g.responsibilities, id) {
            Some(tag) => {
                return Some(tag);
            },
            None => {},
        }
    }
    i = p.nodes.len();
    assert(ns.take(ns.len() as int) =~= ns);
    while i > 0
        invariant
            i <= p.nodes@.len(),
            ns == p.nodes.deep_view(),
            tag_of(p.deep_view(), id@) == tag_in_nodes(ns.take(i as int), id@),
        decreases i,
    {
        i -= 1;
        let n = at(&p.nodes, i);
        assert(ns.take(i + 1).drop_last() =~= ns.take(i as int));
        assert(ns.take(i + 1).last() == n.deep_view());
        match last_tag(&n.responsibilities, id) {
            Some(tag) => {
                return Some(tag);
            },
            None => {},
        }
    }
    None
}

fn retag_claims(p: &ScryModel, rs: &Vec<Responsibility>) -> (r: Vec<Responsibility>)
    ensures
        r.deep_view() == retagged_claims(p.deep_view(), rs.deep_view()),
{
    let ghost v = rs.deep_view();
    let ghost want = retagged_claims(p.deep_view(), v);
    let mut out: Vec<Responsibility> = fresh();
    let mut i: usize = 0;
    assert(want.take(0) =~= Seq::<ResponsibilityView>::empty());
    while i < rs.len()
        invariant
            i <= rs@.len(),
            v == rs.deep_view(),
            want == retagged_claims(p.deep_view(), v),
            out.deep_view() == want.take(i as int),
        decreases rs@.len() - i,
    {
        let mut r = at(rs, i).dup();
        match planned_tag(p, r.id.as_str()) {
            Some(tag) => {
                r.concern = tag;
            },
            None => {},
        }
        proof {
            assert(r.deep_view() == want[i as int]);
            assert(want.take(i + 1) =~= want.take(i as int).push(want[i as int]));
        }
        put(&mut out, r);
        i += 1;
    }
    assert(want.take(want.len() as int) =~= want);
    out
}

/// Carries the tags of the plan, and its registry, to the committed model. A tag builds
/// nothing, so it waits for no fold: every claim that the committed model has too takes
/// the tag it has in the plan. Answers whether the committed model changed.
pub fn sync_concern_metadata(committed: &mut ScryModel, planned: &ScryModel) -> (changed: bool)
    ensures
        final(committed).deep_view() == synced(old(committed).deep_view(), planned.deep_view()),
        changed == (final(committed).deep_view() != old(committed).deep_view()),
{
    let ghost c = committed.deep_view();
    let ghost want = synced(c, planned.deep_view());
    let mut out = committed.dup();
    let mut nodes: Vec<Node> = fresh();
    let mut i: usize = 0;
    assert(want.nodes.take(0) =~= Seq::<NodeView>::empty());
    while i < committed.nodes.len()
        invariant
            i <= committed.nodes@.len(),
            c == committed.deep_view(),
            want == synced(c, planned.deep_view()),
            nodes.deep_view() == want.nodes.take(i as int),
        decreases committed.nodes@.len() - i,
    {
        let mut n = at(&committed.nodes, i).dup();
        let rs = retag_claims(planned, &n.responsibilities);
        n.responsibilities = rs;
        proof {
            assert(n.deep_view() == want.nodes[i as int]);
            assert(want.nodes.take(i + 1) =~= want.nodes.take(i as int).push(
                want.nodes[i as int],
            ));
        }
        put(&mut nodes, n);
        i += 1;
    }
    assert(want.nodes.take(c.nodes.len() as int) =~= want.nodes);
    let mut groups: Vec<Group> = fresh();
    i = 0;
    assert(want.groups.take(0) =~= Seq::<GroupView>::empty());
    while i < committed.groups.len()
        invariant
            i <= committed.groups@.len(),
            c == committed.deep_view(),
            want == synced(c, planned.deep_view()),
            groups.deep_view() == want.groups.take(i as int),
        decreases committed.groups@.len() - i,
    {
        let mut g = at(&committed.groups, i).dup();
        let rs = retag_claims(planned, &g.responsibilities);
        g.responsibilities = rs;
        proof {
            assert(g.deep_view() == want.groups[i as int]);
            assert(want.groups.take(i + 1) =~= want.groups.take(i as int).push(
                want.groups[i as int],
            ));
        }
        put(&mut groups, g);
        i += 1;
    }
    assert(want.groups.take(c.groups.len() as int) =~= want.groups);
    out.nodes = nodes;
    out.groups = groups;
    out.concerns = planned.concerns.dup();
    let changed = !out.same(committed);
    *committed = out;
    changed
}

// ---- laws -----------------------------------------------------------------------------

/// Is the text a slug: small letters, digits and single hyphens between them?
pub open spec fn is_kebab(s: Seq<char>) -> bool {
    &&& forall|i: int|
        0 <= i < s.len() ==> ('a' <= #[trigger] s[i] && s[i] <= 'z') || ('0' <= s[i] && s[i]
            <= '9') || s[i] == '-'
    &&& s.len() > 0 ==> s[0] != '-' && s.last() != '-'
    &&& forall|i: int| 0 < i < s.len() && #[trigger] s[i] == '-' ==> s[i - 1] != '-'
}

proof fn lemma_lowered(c: char)
    requires
        ascii_alnum(c),
    ensures
        ('a' <= lowered(c) && lowered(c) <= 'z') || ('0' <= lowered(c) && lowered(c) <= '9'),
{
}

proof fn lemma_kebab_state(raw: Seq<char>)
    ensures
        is_kebab(slug_state(ascii_parts(raw)).0),
    decreases raw.len(),
{
    let ps = ascii_parts(raw);
    if raw.len() > 0 {
        lemma_kebab_state(raw.drop_last());
        assert(ps.drop_last() =~= ascii_parts(raw.drop_last()));
        let (out, pending) = slug_state(ps.drop_last());
        if ascii_alnum(raw.last()) {
            let l = lowered(raw.last());
            lemma_lowered(raw.last());
            let joint = if pending && out.len() > 0 {
                out.push('-')
            } else {
                out
            };
            let all = joint + seq![l];
            assert(slug_state(ps).0 == all);
            assert(all =~= joint.push(l));
            assert forall|i: int| 0 <= i < all.len() implies ('a' <= #[trigger] all[i] && all[i]
                <= 'z') || ('0' <= all[i] && all[i] <= '9') || all[i] == '-' by {
                if i < out.len() {
                    assert(all[i] == out[i]);
                }
            }
            assert forall|i: int| 0 < i < all.len() && #[trigger] all[i] == '-' implies all[i - 1]
                != '-' by {
                if i < out.len() {
                    assert(all[i] == out[i] && all[i - 1] == out[i - 1]);
                } else if i < joint.len() {
                    assert(all[i - 1] == out.last());
                }
            }
            if out.len() > 0 {
                assert(all[0] == out[0]);
            }
        }
    }
}

/// The slug of an ASCII text is in lower case, has single hyphens for separators, and
/// none at its ends.
pub proof fn law_slugs_are_kebab(raw: Seq<char>)
    ensures
        is_kebab(ascii_slug(raw)),
{
    lemma_kebab_state(raw);
}

proof fn lemma_kebab_fixed(s: Seq<char>, i: int)
    requires
        is_kebab(s),
        0 <= i <= s.len(),
    ensures
        slug_state(ascii_parts(s.take(i))) == if i > 0 && s[i - 1] == '-' {
            (s.take(i - 1), true)
        } else {
            (s.take(i), false)
        },
    decreases i,
{
    if i == 0 {
        assert(ascii_parts(s.take(0)) =~= Seq::<Option<Seq<char>>>::empty());
        assert(s.take(0) =~= Seq::<char>::empty());
    } else {
        let c = s[i - 1];
        let ps = ascii_parts(s.take(i));
        lemma_kebab_fixed(s, i - 1);
        assert(s.take(i).drop_last() =~= s.take(i - 1));
        assert(ps.drop_last() =~= ascii_parts(s.take(i - 1)));
        assert(s.take(i).last() == c);
        if c == '-' {
            assert(i - 1 > 0);
            assert(s[i - 2] != '-');
        } else {
            assert(lowered(c) == c);
            if i > 1 && s[i - 2] == '-' {
                assert(i - 2 > 0);
                assert(s.take(i - 2).push('-') + seq![c] =~= s.take(i));
            } else {
                assert(s.take(i - 1) + seq![c] =~= s.take(i));
            }
        }
    }
}

/// A slug is its own slug: the vocabulary cannot fork on casing or spacing.
pub proof fn law_slugs_are_stable(raw: Seq<char>)
    ensures
        ascii_slug(ascii_slug(raw)) == ascii_slug(raw),
{
    let s = ascii_slug(raw);
    lemma_kebab_state(raw);
    lemma_kebab_fixed(s, s.len() as int);
    assert(s.take(s.len() as int) =~= s);
}

proof fn lemma_used_grow(rs: Seq<ResponsibilityView>, used: Seq<Seq<char>>)
    ensures
        forall|x: Seq<char>| #[trigger]
            used.contains(x) ==> used_by_claims(rs, used).contains(x),
        forall|i: int|
            0 <= i < rs.len() && clean_tag((#[trigger] rs[i]).concern) is Some ==> used_by_claims(
                rs,
                used,
            ).contains(clean_tag(rs[i].concern)->0),
    decreases rs.len(),
{
    if rs.len() > 0 {
        let d = rs.drop_last();
        lemma_used_grow(d, used);
        let before = used_by_claims(d, used);
        let all = used_by_claims(rs, used);
        assert forall|x: Seq<char>| #[trigger] before.contains(x) implies all.contains(x) by {
            let k = choose|k: int| 0 <= k < before.len() && before[k] == x;
            assert(all[k] == x);
        }
        assert forall|x: Seq<char>| #[trigger] used.contains(x) implies all.contains(x) by {
            assert(before.contains(x));
        }
        assert forall|i: int|
            0 <= i < rs.len() && clean_tag(
                (#[trigger] rs[i]).concern,
            ) is Some implies all.contains(clean_tag(rs[i].concern)->0) by {
            if i < d.len() {
                assert(d[i] == rs[i]);
                assert(before.contains(clean_tag(d[i].concern)->0));
            } else {
                let slug = clean_tag(rs.last().concern)->0;
                if !before.contains(slug) {
                    assert(all[before.len() as int] == slug);
                }
            }
        }
    }
}

proof fn lemma_nodes_used(ns: Seq<NodeView>, used: Seq<Seq<char>>, i: int)
    requires
        0 <= i < ns.len(),
    ensures
        forall|j: int|
            0 <= j < ns[i].responsibilities.len() && clean_tag(
                (#[trigger] ns[i].responsibilities[j]).concern,
            ) is Some ==> used_by_nodes(ns, used).contains(
                clean_tag(ns[i].responsibilities[j].concern)->0,
            ),
    decreases ns.len(),
{
    let d = ns.drop_last();
    let before = used_by_nodes(d, used);
    lemma_used_grow(ns.last().responsibilities, before);
    if i < d.len() {
        lemma_nodes_used(d, used, i);
        let rs = ns[i].responsibilities;
        assert(d[i].responsibilities == rs);
        assert forall|j: int|
            0 <= j < rs.len() && clean_tag((#[trigger] rs[j]).concern) is Some implies used_by_nodes(
            ns,
            used,
        ).contains(clean_tag(rs[j].concern)->0) by {
            assert(before.contains(clean_tag(d[i].responsibilities[j].concern)->0));
        }
    }
}

proof fn lemma_groups_used(gs: Seq<GroupView>, used: Seq<Seq<char>>)
    ensures
        forall|x: Seq<char>| #[trigger]
            used.contains(x) ==> used_by_groups(gs, used).contains(x),
        forall|i: int, j: int|
            #![trigger gs[i].responsibilities[j]]
            0 <= i < gs.len() && 0 <= j < gs[i].responsibilities.len() && clean_tag(
                gs[i].responsibilities[j].concern,
            ) is Some ==> used_by_groups(gs, used).contains(
                clean_tag(gs[i].responsibilities[j].concern)->0,
            ),
    decreases gs.len(),
{
    if gs.len() > 0 {
        let d = gs.drop_last();
        lemma_groups_used(d, used);
        let before = used_by_groups(d, used);
        let all = used_by_groups(gs, used);
        lemma_used_grow(gs.last().responsibilities, before);
        assert forall|x: Seq<char>| #[trigger] used.contains(x) implies all.contains(x) by {
            assert(before.contains(x));
        }
        assert forall|i: int, j: int|
            #![trigger gs[i].responsibilities[j]]
            0 <= i < gs.len() && 0 <= j < gs[i].responsibilities.len() && clean_tag(
                gs[i].responsibilities[j].concern,
            ) is Some implies all.contains(clean_tag(gs[i].responsibilities[j].concern)->0) by {
            if i < d.len() {
                assert(d[i] == gs[i]);
                assert(before.contains(clean_tag(d[i].responsibilities[j].concern)->0));
            } else {
                assert(gs[i] == gs.last());
            }
        }
    }
}

proof fn lemma_entries(cs: Seq<ConcernDefView>, slugs: Seq<Seq<char>>)
    ensures
        cs.len() <= with_entries(cs, slugs).len(),
        with_entries(cs, slugs).take(cs.len() as int) == cs,
        forall|i: int|
            0 <= i < slugs.len() ==> has_named::<ConcernDef>(
                with_entries(cs, slugs),
                #[trigger] slugs[i],
            ),
    decreases slugs.len(),
{
    if slugs.len() == 0 {
        assert(cs.take(cs.len() as int) =~= cs);
    } else {
        let d = slugs.drop_last();
        lemma_entries(cs, d);
        let before = with_entries(cs, d);
        let all = with_entries(cs, slugs);
        assert(all.take(cs.len() as int) =~= before.take(cs.len() as int));
        assert forall|i: int| 0 <= i < slugs.len() implies has_named::<ConcernDef>(
            all,
            #[trigger] slugs[i],
        ) by {
            if i < d.len() {
                assert(has_named::<ConcernDef>(before, d[i]));
                let k = choose|k: int|
                    0 <= k < before.len() && ConcernDef::name_of(#[trigger] before[k]) == d[i];
                assert(ConcernDef::name_of(all[k]) == slugs[i]);
            } else if !has_named::<ConcernDef>(before, slugs.last()) {
                assert(ConcernDef::name_of(all[before.len() as int]) == slugs[i]);
            }
        }
    }
}

proof fn lemma_sorted_has(s: Seq<ConcernDefView>, x: ConcernDefView)
    requires
        s.contains(x),
    ensures
        sorted_by::<ConcernDef>(s).contains(x),
{
    broadcast use vstd::seq_lib::group_to_multiset_ensures;

    law_sorting_by_name::<ConcernDef>(s);
    assert(s.to_multiset().count(x) > 0);
}

proof fn lemma_registered(m: ScryModelView, slug: Seq<char>)
    requires
        slugs_in_use(m).contains(slug),
    ensures
        has_named::<ConcernDef>(registered(m).concerns, slug),
{
    let used = slugs_in_use(m);
    let list = with_entries(m.concerns, used);
    lemma_entries(m.concerns, used);
    let i = choose|i: int| 0 <= i < used.len() && used[i] == slug;
    assert(has_named::<ConcernDef>(list, used[i]));
    let k = choose|k: int| 0 <= k < list.len() && ConcernDef::name_of(#[trigger] list[k]) == slug;
    lemma_sorted_has(list, list[k]);
    let s = registered(m).concerns;
    let q = choose|q: int| 0 <= q < s.len() && s[q] == list[k];
    assert(ConcernDef::name_of(s[q]) == slug);
}

/// No tag dangles: after registering, the tag of every claim of a node or group is a
/// slug that the registry has.
pub proof fn law_every_tag_is_registered(m: ScryModelView)
    ensures
        forall|i: int, j: int|
            #![trigger registered(m).nodes[i].responsibilities[j]]
            0 <= i < m.nodes.len() && 0 <= j < m.nodes[i].responsibilities.len() ==> ({
                let tag = registered(m).nodes[i].responsibilities[j].concern;
                tag is Some ==> has_named::<ConcernDef>(registered(m).concerns, tag->0)
            }),
        forall|i: int, j: int|
            #![trigger registered(m).groups[i].responsibilities[j]]
            0 <= i < m.groups.len() && 0 <= j < m.groups[i].responsibilities.len() ==> ({
                let tag = registered(m).groups[i].responsibilities[j].concern;
                tag is Some ==> has_named::<ConcernDef>(registered(m).concerns, tag->0)
            }),
{
    let u1 = used_by_nodes(m.nodes, Seq::empty());
    lemma_groups_used(m.groups, u1);
    assert forall|i: int, j: int|
        #![trigger registered(m).nodes[i].responsibilities[j]]
        0 <= i < m.nodes.len() && 0 <= j < m.nodes[i].responsibilities.len() implies ({
        let tag = registered(m).nodes[i].responsibilities[j].concern;
        tag is Some ==> has_named::<ConcernDef>(registered(m).concerns, tag->0)
    }) by {
        let tag = clean_tag(m.nodes[i].responsibilities[j].concern);
        assert(registered(m).nodes[i].responsibilities[j].concern == tag);
        if tag is Some {
            lemma_nodes_used(m.nodes, Seq::empty(), i);
            assert(u1.contains(tag->0));
            lemma_registered(m, tag->0);
        }
    }
    assert forall|i: int, j: int|
        #![trigger registered(m).groups[i].responsibilities[j]]
        0 <= i < m.groups.len() && 0 <= j < m.groups[i].responsibilities.len() implies ({
        let tag = registered(m).groups[i].responsibilities[j].concern;
        tag is Some ==> has_named::<ConcernDef>(registered(m).concerns, tag->0)
    }) by {
        let tag = clean_tag(m.groups[i].responsibilities[j].concern);
        assert(registered(m).groups[i].responsibilities[j].concern == tag);
        if tag is Some {
            assert(slugs_in_use(m).contains(tag->0));
            lemma_registered(m, tag->0);
        }
    }
}

/// Registering touches no entry that is there and drops none; the registry ends sorted.
pub proof fn law_registered_entries_stay(m: ScryModelView, i: int)
    requires
        0 <= i < m.concerns.len(),
    ensures
        registered(m).concerns.contains(m.concerns[i]),
        ordered_by::<ConcernDef>(registered(m).concerns),
{
    let list = with_entries(m.concerns, slugs_in_use(m));
    lemma_entries(m.concerns, slugs_in_use(m));
    assert(list.take(m.concerns.len() as int)[i] == list[i]);
    assert(list.contains(m.concerns[i]));
    lemma_sorted_has(list, m.concerns[i]);
    law_sorting_by_name::<ConcernDef>(list);
}

/// Carrying the tags over a second time finds nothing to do.
pub proof fn law_syncing_twice(c: ScryModelView, p: ScryModelView)
    ensures
        synced(synced(c, p), p) == synced(c, p),
{
    let s = synced(c, p);
    let t = synced(s, p);
    assert forall|i: int| 0 <= i < c.nodes.len() implies t.nodes[i] == s.nodes[i] by {
        assert(retagged_claims(p, s.nodes[i].responsibilities)
            =~= s.nodes[i].responsibilities);
    }
    assert(t.nodes =~= s.nodes);
    assert forall|i: int| 0 <= i < c.groups.len() implies t.groups[i] == s.groups[i] by {
        assert(retagged_claims(p, s.groups[i].responsibilities)
            =~= s.groups[i].responsibilities);
    }
    assert(t.groups =~= s.groups);
}

/// Carrying the tags over adds no claim and drops none, and changes nothing of a claim
/// but its tag: a claim that only the plan has stays out of the committed model.
pub proof fn law_syncing_only_retags(c: ScryModelView, p: ScryModelView, i: int, j: int)
    requires
        0 <= i < c.nodes.len(),
        0 <= j < c.nodes[i].responsibilities.len(),
    ensures
        synced(c, p).nodes.len() == c.nodes.len(),
        synced(c, p).nodes[i].responsibilities.len() == c.nodes[i].responsibilities.len(),
        (ResponsibilityView {
            concern: c.nodes[i].responsibilities[j].concern,
            ..synced(c, p).nodes[i].responsibilities[j]
        }) == c.nodes[i].responsibilities[j],
{
}

/// Are the tags of the claims ASCII texts?
pub open spec fn claims_ascii(rs: Seq<ResponsibilityView>) -> bool {
    forall|i: int|
        0 <= i < rs.len() && (#[trigger] rs[i]).concern is Some ==> all_ascii(rs[i].concern->0)
}

/// Are the tags of a model ASCII texts?
pub open spec fn tags_ascii(m: ScryModelView) -> bool {
    &&& forall|i: int| 0 <= i < m.nodes.len() ==> claims_ascii((#[trigger] m.nodes[i]).responsibilities)
    &&& forall|i: int|
        0 <= i < m.groups.len() ==> claims_ascii((#[trigger] m.groups[i]).responsibilities)
}

proof fn lemma_tag_settles(tag: Option<Seq<char>>)
    requires
        ascii_as_usual(),
        tag is Some ==> all_ascii(tag->0),
    ensures
        clean_tag(clean_tag(tag)) == clean_tag(tag),
{
    if tag is Some {
        let raw = tag->0;
        assert(parts_of(raw) =~= ascii_parts(raw)) by {
            assert forall|i: int| 0 <= i < raw.len() implies parts_of(raw)[i] == ascii_parts(
                raw,
            )[i] by {
                assert(is_ascii(raw[i]));
                assert(is_alnum(raw[i]) == ascii_alnum(raw[i]));
            }
        }
        let s = ascii_slug(raw);
        law_slugs_are_kebab(raw);
        law_slugs_are_stable(raw);
        assert(parts_of(s) =~= ascii_parts(s)) by {
            assert forall|i: int| 0 <= i < s.len() implies parts_of(s)[i] == ascii_parts(s)[i] by {
                assert(('a' <= s[i] && s[i] <= 'z') || ('0' <= s[i] && s[i] <= '9') || s[i] == '-');
                assert(is_ascii(s[i]));
                assert(is_alnum(s[i]) == ascii_alnum(s[i]));
            }
        }
    }
}

proof fn lemma_claims_settle(rs: Seq<ResponsibilityView>, used: Seq<Seq<char>>)
    requires
        ascii_as_usual(),
        claims_ascii(rs),
    ensures
        clean_claims(clean_claims(rs)) == clean_claims(rs),
        used_by_claims(clean_claims(rs), used) == used_by_claims(rs, used),
    decreases rs.len(),
{
    let cs = clean_claims(rs);
    assert forall|i: int| 0 <= i < rs.len() implies clean_claims(cs)[i] == cs[i] by {
        assert(rs[i].concern is Some ==> all_ascii(rs[i].concern->0));
        lemma_tag_settles(rs[i].concern);
    }
    assert(clean_claims(cs) =~= cs);
    if rs.len() > 0 {
        let d = rs.drop_last();
        assert forall|i: int| 0 <= i < d.len() && (#[trigger] d[i]).concern is Some implies all_ascii(
            d[i].concern->0,
        ) by {
            assert(d[i] == rs[i]);
        }
        lemma_claims_settle(d, used);
        assert(cs.drop_last() =~= clean_claims(d));
        assert(rs[rs.len() - 1] == rs.last());
        lemma_tag_settles(rs.last().concern);
    }
}

proof fn lemma_node_tags_settle(m: ScryModelView, k: int)
    requires
        ascii_as_usual(),
        tags_ascii(m),
        0 <= k <= m.nodes.len(),
    ensures
        used_by_nodes(registered(m).nodes.take(k), Seq::empty()) == used_by_nodes(
            m.nodes.take(k),
            Seq::empty(),
        ),
    decreases k,
{
    let r = registered(m);
    if k > 0 {
        lemma_node_tags_settle(m, k - 1);
        assert(r.nodes.take(k).drop_last() =~= r.nodes.take(k - 1));
        assert(m.nodes.take(k).drop_last() =~= m.nodes.take(k - 1));
        assert(claims_ascii(m.nodes[k - 1].responsibilities));
        lemma_claims_settle(
            m.nodes[k - 1].responsibilities,
            used_by_nodes(m.nodes.take(k - 1), Seq::empty()),
        );
    }
}

proof fn lemma_group_tags_settle(m: ScryModelView, used: Seq<Seq<char>>, k: int)
    requires
        ascii_as_usual(),
        tags_ascii(m),
        0 <= k <= m.groups.len(),
    ensures
        used_by_groups(registered(m).groups.take(k), used) == used_by_groups(
            m.groups.take(k),
            used,
        ),
    decreases k,
{
    let r = registered(m);
    if k > 0 {
        lemma_group_tags_settle(m, used, k - 1);
        assert(r.groups.take(k).drop_last() =~= r.groups.take(k - 1));
        assert(m.groups.take(k).drop_last() =~= m.groups.take(k - 1));
        assert(claims_ascii(m.groups[k - 1].responsibilities));
        lemma_claims_settle(
            m.groups[k - 1].responsibilities,
            used_by_groups(m.groups.take(k - 1), used),
        );
    }
}

proof fn lemma_all_there(cs: Seq<ConcernDefView>, slugs: Seq<Seq<char>>)
    requires
        forall|i: int| 0 <= i < slugs.len() ==> has_named::<ConcernDef>(cs, #[trigger] slugs[i]),
    ensures
        with_entries(cs, slugs) == cs,
    decreases slugs.len(),
{
    if slugs.len() > 0 {
        let d = slugs.drop_last();
        assert forall|i: int| 0 <= i < d.len() implies has_named::<ConcernDef>(
            cs,
            #[trigger] d[i],
        ) by {
            assert(d[i] == slugs[i]);
        }
        lemma_all_there(cs, d);
        assert(has_named::<ConcernDef>(cs, slugs[slugs.len() - 1]));
    }
}

proof fn lemma_sorted_stays(s: Seq<ConcernDefView>)
    requires
        ordered_by::<ConcernDef>(s),
    ensures
        sorted_by::<ConcernDef>(s) == s,
    decreases s.len(),
{
    if s.len() > 0 {
        let d = s.drop_last();
        assert forall|i: int, j: int| 0 <= i < j < d.len() implies !lex_lt(
            ConcernDef::name_of(#[trigger] d[j]),
            ConcernDef::name_of(#[trigger] d[i]),
        ) by {
            assert(d[i] == s[i] && d[j] == s[j]);
        }
        lemma_sorted_stays(d);
        if d.len() > 0 {
            assert(d.last() == s[s.len() - 2]);
            assert(!lex_lt(
                ConcernDef::name_of(s[s.len() - 1]),
                ConcernDef::name_of(s[s.len() - 2]),
            ));
        }
        assert(d.push(s.last()) =~= s);
    } else {
        assert(sorted_by::<ConcernDef>(s) =~= s);
    }
}

/// Registering a second time changes nothing, where the tags are ASCII texts.
pub proof fn law_registering_twice(m: ScryModelView)
    requires
        ascii_as_usual(),
        tags_ascii(m),
    ensures
        registered(registered(m)) == registered(m),
{
    let r = registered(m);
    let rr = registered(r);
    assert forall|i: int| 0 <= i < m.nodes.len() implies rr.nodes[i] == r.nodes[i] by {
        assert(claims_ascii(m.nodes[i].responsibilities));
        lemma_claims_settle(m.nodes[i].responsibilities, Seq::empty());
    }
    assert(rr.nodes =~= r.nodes);
    assert forall|i: int| 0 <= i < m.groups.len() implies rr.groups[i] == r.groups[i] by {
        assert(claims_ascii(m.groups[i].responsibilities));
        lemma_claims_settle(m.groups[i].responsibilities, Seq::empty());
    }
    assert(rr.groups =~= r.groups);
    lemma_node_tags_settle(m, m.nodes.len() as int);
    assert(r.nodes.take(m.nodes.len() as int) =~= r.nodes);
    assert(m.nodes.take(m.nodes.len() as int) =~= m.nodes);
    lemma_group_tags_settle(m, used_by_nodes(m.nodes, Seq::empty()), m.groups.len() as int);
    assert(r.groups.take(m.groups.len() as int) =~= r.groups);
    assert(m.groups.take(m.groups.len() as int) =~= m.groups);
    let used = slugs_in_use(m);
    assert(slugs_in_use(r) == used);
    assert forall|i: int| 0 <= i < used.len() implies has_named::<ConcernDef>(
        r.concerns,
        #[trigger] used[i],
    ) by {
        assert(used.contains(used[i]));
        lemma_registered(m, used[i]);
    }
    lemma_all_there(r.concerns, used);
    law_sorting_by_name::<ConcernDef>(with_entries(m.concerns, used));
    lemma_sorted_stays(r.concerns);
}

} // verus!
