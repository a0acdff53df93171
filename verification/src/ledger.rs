//! The ledger: filing plan entries under changes, and opening, closing and
//! abandoning the changes.

use crate::changes::{
    element_key, key, key_for, key_of, requires_change_titles, shown_title, title_empty, title_of,
    title_too_long, validate_title, ChangeMeta, ChangeMetaView, MAX_TITLE_LEN,
};
use crate::diff::{
    diff, diff_of, law_nothing_binned, lookup, not_binned, not_vagrant, pending_elements_without,
    ref_view, Change, ChangeView, ElementChange, ElementChangeView, ElementKind,
};
use crate::history::{
    name_given, named, EventKind, EventRow, EventRowView, HistoryEvent, HistoryEventView,
};
use crate::ids::{add_names, id_for, mint_id_from, names, some_free};
use crate::model::{
    groups_without_claim, nodes_without_claim, strip_groups, strip_nodes, Group, GroupView, Link,
    LinkView, Node, NodeView, Responsibility, SchemaProperty, ScryModel, ScryModelView,
};
use crate::modelled::{at, fresh, put, set_at, Modelled};
use crate::named::{except, find, first, has_named, others, pick, place_of, there};
use crate::signoff::{filed_under, keys_of, no_open_change};
use crate::strmap::StrMap;
use crate::text::{
    ascending, cat2, cat3, dec, decimal, holds, join, joined, same_text, strip_prefix, trim,
    trimmed,
};
use vstd::prelude::*;
use vstd::string::*;

verus! {

/// What a re-filing moved.
#[derive(Debug, PartialEq)]
pub struct Retag {
    /// Each key that moved, with the change it came from.
    pub moved: Vec<(String, Option<String>)>,
    /// The targets that named nothing pending.
    pub unmatched: Vec<String>,
}

/// The model of a [`Retag`].
#[verifier::ext_equal]
pub struct RetagView {
    pub moved: Seq<(Seq<char>, Option<Seq<char>>)>,
    pub unmatched: Seq<Seq<char>>,
}

impl DeepView for Retag {
    type V = RetagView;

    open spec fn deep_view(&self) -> RetagView {
        RetagView {
            moved: self.moved.deep_view(),
            unmatched: self.unmatched.deep_view(),
        }
    }
}

impl Modelled for Retag {
    fn dup(&self) -> (r: Self) {
        Retag {
            moved: self.moved.dup(),
            unmatched: self.unmatched.dup(),
        }
    }

    fn same(&self, other: &Self) -> (r: bool) {
        self.moved.same(&other.moved)
            && self.unmatched.same(&other.unmatched)
    }
}

impl Clone for Retag {
    fn clone(&self) -> (r: Self)
        ensures
            r.deep_view() == self.deep_view(),
    {
        self.dup()
    }
}

/// What a clean-up did.
#[derive(Debug, PartialEq)]
pub struct Gc {
    /// How many dead keys went.
    pub pruned: usize,
    /// The changes that lost their last key.
    pub closed: Vec<ChangeMeta>,
}

/// The model of a [`Gc`].
#[verifier::ext_equal]
pub struct GcView {
    pub pruned: usize,
    pub closed: Seq<ChangeMetaView>,
}

impl DeepView for Gc {
    type V = GcView;

    open spec fn deep_view(&self) -> GcView {
        GcView {
            pruned: self.pruned.deep_view(),
            closed: self.closed.deep_view(),
        }
    }
}

impl Modelled for Gc {
    fn dup(&self) -> (r: Self) {
        Gc {
            pruned: self.pruned.dup(),
            closed: self.closed.dup(),
        }
    }

    fn same(&self, other: &Self) -> (r: bool) {
        self.pruned.same(&other.pruned)
            && self.closed.same(&other.closed)
    }
}

impl Clone for Gc {
    fn clone(&self) -> (r: Self)
        ensures
            r.deep_view() == self.deep_view(),
    {
        self.dup()
    }
}

/// A plan entry that an abandonment dropped.
#[derive(Debug, PartialEq)]
pub struct DroppedEntry {
    pub key: String,
    pub label: String,
    /// What the plan was doing to it.
    pub what: String,
}

/// The model of a [`DroppedEntry`].
#[verifier::ext_equal]
pub struct DroppedEntryView {
    pub key: Seq<char>,
    pub label: Seq<char>,
    pub what: Seq<char>,
}

impl DeepView for DroppedEntry {
    type V = DroppedEntryView;

    open spec fn deep_view(&self) -> DroppedEntryView {
        DroppedEntryView {
            key: self.key.deep_view(),
            label: self.label.deep_view(),
            what: self.what.deep_view(),
        }
    }
}

impl Modelled for DroppedEntry {
    fn dup(&self) -> (r: Self) {
        DroppedEntry {
            key: self.key.dup(),
            label: self.label.dup(),
            what: self.what.dup(),
        }
    }

    fn same(&self, other: &Self) -> (r: bool) {
        self.key.same(&other.key)
            && self.label.same(&other.label)
            && self.what.same(&other.what)
    }
}

impl Clone for DroppedEntry {
    fn clone(&self) -> (r: Self)
        ensures
            r.deep_view() == self.deep_view(),
    {
        self.dup()
    }
}

/// What an abandonment took out of the plan.
#[derive(Debug, PartialEq)]
pub struct Abandoned {
    pub meta: ChangeMeta,
    pub dropped: Vec<DroppedEntry>,
}

/// The model of a [`Abandoned`].
#[verifier::ext_equal]
pub struct AbandonedView {
    pub meta: ChangeMetaView,
    pub dropped: Seq<DroppedEntryView>,
}

impl DeepView for Abandoned {
    type V = AbandonedView;

    open spec fn deep_view(&self) -> AbandonedView {
        AbandonedView {
            meta: self.meta.deep_view(),
            dropped: self.dropped.deep_view(),
        }
    }
}

impl Modelled for Abandoned {
    fn dup(&self) -> (r: Self) {
        Abandoned {
            meta: self.meta.dup(),
            dropped: self.dropped.dup(),
        }
    }

    fn same(&self, other: &Self) -> (r: bool) {
        self.meta.same(&other.meta)
            && self.dropped.same(&other.dropped)
    }
}

impl Clone for Abandoned {
    fn clone(&self) -> (r: Self)
        ensures
            r.deep_view() == self.deep_view(),
    {
        self.dup()
    }
}
// ---- opening --------------------------------------------------------------------

/// What is said when a title is required and none is given.
pub open spec fn title_required() -> Seq<char> {
    "this project requires a change to have a title: pass one of at most 80 characters beside the rationale"@
}

/// The values of a map in ascending order of key.
pub open spec fn values_of(m: Map<Seq<char>, Seq<char>>) -> Seq<Seq<char>> {
    let ks = ascending(m.dom());
    Seq::new(ks.len(), |i: int| m[ks[i]])
}

fn add_values(out: &mut Vec<String>, m: &StrMap<String>)
    ensures
        final(out).deep_view() == old(out).deep_view() + values_of(m.deep_view()),
{
    let ghost all = values_of(m.deep_view());
    let ghost start = out.deep_view();
    let n: usize = m.len();
    let mut i: usize = 0;
    assert(start + all.take(0) =~= start);
    while i < n
        invariant
            i <= n,
            n == all.len(),
            n == ascending(m.deep_view().dom()).len(),
            all == values_of(m.deep_view()),
            out.deep_view() == start + all.take(i as int),
        decreases n - i,
    {
        put(out, m.value_at(i).clone());
        assert(start + all.take(i + 1) =~= (start + all.take(i as int)).push(all[i as int]));
        i += 1;
    }
    assert(all.take(all.len() as int) =~= all);
}

/// Every change id the plan has seen, in the registry or on a tag.
pub open spec fn seen_changes(m: ScryModelView) -> Seq<Seq<char>> {
    names::<ChangeMeta>(m.changes) + values_of(m.change_map)
}

/// A change as it is opened.
pub open spec fn opened(
    id: Seq<char>,
    rationale: Seq<char>,
    title: Option<Seq<char>>,
    now: u64,
) -> ChangeMetaView {
    ChangeMetaView {
        id,
        rationale: trimmed(rationale),
        title,
        created_at: now,
        signed_off: None,
    }
}

/// Does the project refuse a change without a title?
pub open spec fn titles_required(m: ScryModelView) -> bool {
    m.policy is Some && m.policy->0.require_change_titles
}

/// Opens a change under a fresh id. Refused when the title is too long, and when
/// there is none though the project requires one.
pub fn open_change_titled(
    model: &mut ScryModel,
    title: Option<&str>,
    rationale: &str,
    now: u64,
) -> (r: Result<String, String>)
    requires
        some_free("chg"@, seen_changes(old(model).deep_view())),
    ensures
        match r {
            Ok(id) => {
                let t = named(ref_view(title));
                &&& t is Some ==> t->0.len() <= MAX_TITLE_LEN
                &&& t is None ==> !titles_required(old(model).deep_view())
                &&& !seen_changes(old(model).deep_view()).contains(id@)
                &&& exists|b: u64| id@ == #[trigger] id_for("chg"@, b as nat)
                &&& final(model).deep_view() == (ScryModelView {
                    changes: old(model).deep_view().changes.push(opened(id@, rationale@, t, now)),
                    ..old(model).deep_view()
                })
            },
            Err(e) => {
                let t = named(ref_view(title));
                &&& final(model).deep_view() == old(model).deep_view()
                &&& t is Some ==> t->0.len() > MAX_TITLE_LEN && e@ == title_too_long(t->0.len())
                &&& t is None ==> titles_required(old(model).deep_view()) && e@
                    == title_required()
            },
        },
{
    let ghost m = model.deep_view();
    let given = name_given(title);
    let title = match given {
        Some(t) => {
            proof {
                crate::text::lemma_trimmed_twice(ref_view(title)->0);
            }
            match validate_title(t.as_str()) {
                Ok(t) => Some(t),
                Err(e) => {
                    return Err(e);
                },
            }
        },
        None => {
            if requires_change_titles(model) {
                return Err(
                    "this project requires a change to have a title: pass one of at most 80 characters beside the rationale".to_owned(),
                );
            }
            None
        },
    };
    let mut taken: Vec<String> = fresh();
    add_names(&mut taken, &model.changes);
    assert(taken.deep_view() =~= names::<ChangeMeta>(m.changes));
    add_values(&mut taken, &model.change_map);
    let id = mint_id_from("chg", taken);
    put(
        &mut model.changes,
        ChangeMeta {
            id: id.clone(),
            rationale: trim(rationale).to_owned(),
            title,
            created_at: now,
            signed_off: None,
        },
    );
    Ok(id)
}

/// Opens a change without a title.
pub fn open_change(model: &mut ScryModel, rationale: &str, now: u64) -> (id: String)
    requires
        !titles_required(old(model).deep_view()),
        some_free("chg"@, seen_changes(old(model).deep_view())),
    ensures
        !seen_changes(old(model).deep_view()).contains(id@),
        exists|b: u64| id@ == #[trigger] id_for("chg"@, b as nat),
        final(model).deep_view() == (ScryModelView {
            changes: old(model).deep_view().changes.push(opened(id@, rationale@, None, now)),
            ..old(model).deep_view()
        }),
{
    match open_change_titled(model, None, rationale, now) {
        Ok(id) => id,
        Err(e) => e,
    }
}

/// Gives an open change a title, or another one.
pub fn set_title(model: &mut ScryModel, change_id: &str, title: &str) -> (r: Result<(), String>)
    ensures
        match r {
            Ok(_) => {
                let cs = old(model).deep_view().changes;
                let i = place_of::<ChangeMeta>(cs, change_id@);
                &&& 0 < trimmed(title@).len() <= MAX_TITLE_LEN
                &&& has_named::<ChangeMeta>(cs, change_id@)
                &&& final(model).deep_view() == (ScryModelView {
                    changes: cs.update(
                        i,
                        ChangeMetaView { title: Some(trimmed(title@)), ..cs[i] },
                    ),
                    ..old(model).deep_view()
                })
            },
            Err(e) => {
                &&& final(model).deep_view() == old(model).deep_view()
                &&& {
                    ||| trimmed(title@).len() == 0 && e@ == title_empty()
                    ||| trimmed(title@).len() > MAX_TITLE_LEN && e@ == title_too_long(
                        trimmed(title@).len(),
                    )
                    ||| 0 < trimmed(title@).len() <= MAX_TITLE_LEN && !has_named::<ChangeMeta>(
                        old(model).deep_view().changes,
                        change_id@,
                    ) && e@ == no_open_change(change_id@)
                }
            },
        },
{
    match validate_title(title) {
        Err(e) => Err(e),
        Ok(t) => match find(&model.changes, change_id) {
            None => Err(cat3("no open change '", change_id, "'")),
            Some(i) => {
                let mut meta = at(&model.changes, i).dup();
                meta.title = Some(t);
                set_at(&mut model.changes, i, meta);
                Ok(())
            },
        },
    }
}

/// The changes among `after` that are not among `before`, in order.
pub open spec fn newly_opened(
    before: Seq<ChangeMetaView>,
    after: Seq<ChangeMetaView>,
) -> Seq<ChangeMetaView>
    decreases after.len(),
{
    if after.len() == 0 {
        Seq::empty()
    } else if has_named::<ChangeMeta>(before, after.last().id) {
        newly_opened(before, after.drop_last())
    } else {
        newly_opened(before, after.drop_last()).push(after.last())
    }
}

/// What a plan write opened: the changes it holds that were not there before.
pub fn opened_by(before: &ScryModel, after: &ScryModel) -> (r: Vec<ChangeMeta>)
    ensures
        r.deep_view() == newly_opened(before.deep_view().changes, after.deep_view().changes),
{
    let ghost bs = before.changes.deep_view();
    let ghost cs = after.changes.deep_view();
    let mut out: Vec<ChangeMeta> = fresh();
    let mut i: usize = 0;
    assert(cs.take(0) =~= Seq::<ChangeMetaView>::empty());
    while i < after.changes.len()
        invariant
            i <= after.changes@.len(),
            bs == before.changes.deep_view(),
            cs == after.changes.deep_view(),
            out.deep_view() == newly_opened(bs, cs.take(i as int)),
        decreases after.changes@.len() - i,
    {
        let c = at(&after.changes, i);
        assert(cs.take(i + 1).drop_last() =~= cs.take(i as int));
        if !there(&before.changes, c.id.as_str()) {
            put(&mut out, c.dup());
        }
        i += 1;
    }
    assert(cs.take(cs.len() as int) =~= cs);
    out
}

// ---- filing ---------------------------------------------------------------------

/// The map with every key filed under `cid`.
pub open spec fn tagged(
    map: Map<Seq<char>, Seq<char>>,
    keys: Seq<Seq<char>>,
    cid: Seq<char>,
) -> Map<Seq<char>, Seq<char>>
    decreases keys.len(),
{
    if keys.len() == 0 {
        map
    } else {
        tagged(map, keys.drop_last(), cid).insert(keys.last(), cid)
    }
}

/// The keys that were filed under another change, with that change.
pub open spec fn conflicts(
    map: Map<Seq<char>, Seq<char>>,
    keys: Seq<Seq<char>>,
    cid: Seq<char>,
) -> Seq<(Seq<char>, Seq<char>)>
    decreases keys.len(),
{
    if keys.len() == 0 {
        Seq::empty()
    } else {
        let before = tagged(map, keys.drop_last(), cid);
        let rest = conflicts(map, keys.drop_last(), cid);
        match lookup(before, keys.last()) {
            Some(prev) if prev != cid => rest.push((keys.last(), prev)),
            _ => rest,
        }
    }
}

/// Files plan elements under a change. The last writer wins; what was filed
/// under another change is reported.
pub fn tag(model: &mut ScryModel, keys: &Vec<String>, change_id: &str) -> (r: Vec<
    (String, String),
>)
    ensures
        r.deep_view() == conflicts(
            old(model).deep_view().change_map,
            keys.deep_view(),
            change_id@,
        ),
        final(model).deep_view() == (ScryModelView {
            change_map: tagged(
                old(model).deep_view().change_map,
                keys.deep_view(),
                change_id@,
            ),
            ..old(model).deep_view()
        }),
{
    let ghost m0 = model.deep_view();
    let ghost kv = keys.deep_view();
    let mut out: Vec<(String, String)> = fresh();
    let mut i: usize = 0;
    assert(kv.take(0) =~= Seq::<Seq<char>>::empty());
    while i < keys.len()
        invariant
            i <= keys@.len(),
            kv == keys.deep_view(),
            out.deep_view() == conflicts(m0.change_map, kv.take(i as int), change_id@),
            model.deep_view() == (ScryModelView {
                change_map: tagged(m0.change_map, kv.take(i as int), change_id@),
                ..m0
            }),
        decreases keys@.len() - i,
    {
        let k = at(keys, i);
        assert(kv.take(i + 1).drop_last() =~= kv.take(i as int));
        match model.change_map.get(k.as_str()) {
            Some(prev) => {
                if !same_text(prev.as_str(), change_id) {
                    put(&mut out, (k.clone(), prev.clone()));
                }
            },
            None => {},
        }
        model.change_map.insert(k.clone(), change_id.to_owned());
        i += 1;
    }
    assert(kv.take(kv.len() as int) =~= kv);
    out
}

/// Is the element another task's work than its host's? An untagged one never is.
pub open spec fn foreign(
    map: Map<Seq<char>, Seq<char>>,
    host_key: Seq<char>,
    elem_key: Seq<char>,
) -> bool {
    map.contains_key(elem_key) && lookup(map, host_key) != Some(map[elem_key])
}

/// Must folding the host leave the element behind, because it is filed under
/// another change?
pub fn foreign_to_host(map: &StrMap<String>, host_key: &str, elem_key: &str) -> (r: bool)
    ensures
        r == foreign(map.deep_view(), host_key@, elem_key@),
{
    match map.get(elem_key) {
        None => false,
        Some(c) => match map.get(host_key) {
            None => true,
            Some(h) => !h.same(c),
        },
    }
}

/// What a pending element is filed beneath: a claim or property beneath its host,
/// a link beneath its source, a node or group beneath itself.
pub open spec fn carrier(
    planned: ScryModelView,
    committed: ScryModelView,
    ch: ElementChangeView,
) -> Option<Seq<char>> {
    match ch.kind {
        ElementKind::Node => Some(ch.id),
        ElementKind::Group => Some(ch.id),
        ElementKind::Responsibility => ch.owner_id,
        ElementKind::Property => ch.owner_id,
        ElementKind::Link => match first::<Link>(planned.links, ch.id) {
            Some(l) => Some(l.src),
            None => match first::<Link>(committed.links, ch.id) {
                Some(l) => Some(l.src),
                None => None,
            },
        },
    }
}

fn host_of(planned: &ScryModel, committed: &ScryModel, ec: &ElementChange) -> (r: Option<String>)
    ensures
        r.deep_view() == carrier(planned.deep_view(), committed.deep_view(), ec.deep_view()),
{
    match ec.kind {
        ElementKind::Node | ElementKind::Group => Some(ec.id.clone()),
        ElementKind::Responsibility | ElementKind::Property => ec.owner_id.dup(),
        ElementKind::Link => match find(&planned.links, ec.id.as_str()) {
            Some(i) => Some(at(&planned.links, i).src.clone()),
            None => match find(&committed.links, ec.id.as_str()) {
                Some(i) => Some(at(&committed.links, i).src.clone()),
                None => None,
            },
        },
    }
}

/// Does a target mean this pending element, filed under `current` now? A change
/// id means what is filed under it, `unfiled` what is filed nowhere, any other id
/// an element or everything beneath a carrier. A property has no id of its own.
pub open spec fn meant(
    planned: ScryModelView,
    committed: ScryModelView,
    target: Seq<char>,
    ch: ElementChangeView,
    current: Option<Seq<char>>,
) -> bool {
    if target == "unfiled"@ {
        current is None
    } else if "chg-"@.is_prefix_of(target) {
        current == Some(target)
    } else {
        (ch.kind != ElementKind::Property && ch.id == target) || carrier(planned, committed, ch)
            == Some(target)
    }
}

/// The map after one pending element was looked at for one target.
pub open spec fn refiled_one(
    planned: ScryModelView,
    committed: ScryModelView,
    map: Map<Seq<char>, Seq<char>>,
    target: Seq<char>,
    ch: ElementChangeView,
    to: Option<Seq<char>>,
) -> Map<Seq<char>, Seq<char>> {
    let k = key_of(ch);
    let current = lookup(map, k);
    if !meant(planned, committed, target, ch, current) || current == to {
        map
    } else {
        match to {
            Some(dst) => map.insert(k, dst),
            None => map.remove(k),
        }
    }
}

/// The map after the pending elements were looked at for one target.
pub open spec fn refiled(
    planned: ScryModelView,
    committed: ScryModelView,
    map: Map<Seq<char>, Seq<char>>,
    target: Seq<char>,
    pend: Seq<ElementChangeView>,
    to: Option<Seq<char>>,
) -> Map<Seq<char>, Seq<char>>
    decreases pend.len(),
{
    if pend.len() == 0 {
        map
    } else {
        refiled_one(
            planned,
            committed,
            refiled(planned, committed, map, target, pend.drop_last(), to),
            target,
            pend.last(),
            to,
        )
    }
}

/// What moved for one target, with where it came from.
pub open spec fn moves(
    planned: ScryModelView,
    committed: ScryModelView,
    map: Map<Seq<char>, Seq<char>>,
    target: Seq<char>,
    pend: Seq<ElementChangeView>,
    to: Option<Seq<char>>,
) -> Seq<(Seq<char>, Option<Seq<char>>)>
    decreases pend.len(),
{
    if pend.len() == 0 {
        Seq::empty()
    } else {
        let d = pend.drop_last();
        let rest = moves(planned, committed, map, target, d, to);
        let before = refiled(planned, committed, map, target, d, to);
        let k = key_of(pend.last());
        let current = lookup(before, k);
        if meant(planned, committed, target, pend.last(), current) && current != to {
            rest.push((k, current))
        } else {
            rest
        }
    }
}

/// Did a target mean any pending element?
pub open spec fn hits(
    planned: ScryModelView,
    committed: ScryModelView,
    map: Map<Seq<char>, Seq<char>>,
    target: Seq<char>,
    pend: Seq<ElementChangeView>,
    to: Option<Seq<char>>,
) -> bool
    decreases pend.len(),
{
    if pend.len() == 0 {
        false
    } else {
        let d = pend.drop_last();
        hits(planned, committed, map, target, d, to) || meant(
            planned,
            committed,
            target,
            pend.last(),
            lookup(refiled(planned, committed, map, target, d, to), key_of(pend.last())),
        )
    }
}

/// The map after all the targets.
pub open spec fn refiled_all(
    planned: ScryModelView,
    committed: ScryModelView,
    targets: Seq<Seq<char>>,
    pend: Seq<ElementChangeView>,
    to: Option<Seq<char>>,
) -> Map<Seq<char>, Seq<char>>
    decreases targets.len(),
{
    if targets.len() == 0 {
        planned.change_map
    } else {
        refiled(
            planned,
            committed,
            refiled_all(planned, committed, targets.drop_last(), pend, to),
            targets.last(),
            pend,
            to,
        )
    }
}

/// What all the targets moved, and which of them meant nothing.
pub open spec fn retagged(
    planned: ScryModelView,
    committed: ScryModelView,
    targets: Seq<Seq<char>>,
    pend: Seq<ElementChangeView>,
    to: Option<Seq<char>>,
) -> RetagView
    decreases targets.len(),
{
    if targets.len() == 0 {
        RetagView { moved: Seq::empty(), unmatched: Seq::empty() }
    } else {
        let d = targets.drop_last();
        let rest = retagged(planned, committed, d, pend, to);
        let map = refiled_all(planned, committed, d, pend, to);
        let t = targets.last();
        RetagView {
            moved: rest.moved + moves(planned, committed, map, t, pend, to),
            unmatched: if hits(planned, committed, map, t, pend, to) {
                rest.unmatched
            } else {
                rest.unmatched.push(t)
            },
        }
    }
}

fn is_meant(
    planned: &ScryModel,
    committed: &ScryModel,
    target: &str,
    ec: &ElementChange,
    current: &Option<String>,
) -> (r: bool)
    ensures
        r == meant(
            planned.deep_view(),
            committed.deep_view(),
            target@,
            ec.deep_view(),
            current.deep_view(),
        ),
{
    if same_text(target, "unfiled") {
        return current.is_none();
    }
    let is_change = match strip_prefix(target, "chg-") {
        Some(rest) => {
            proof {
                assert("chg-"@ =~= target@.subrange(0, "chg-"@.len() as int));
            }
            true
        },
        None => false,
    };
    if is_change {
        match current {
            Some(c) => same_text(c.as_str(), target),
            None => false,
        }
    } else {
        let beneath = match host_of(planned, committed, ec) {
            Some(h) => same_text(h.as_str(), target),
            None => false,
        };
        (!(ec.kind == ElementKind::Property) && same_text(ec.id.as_str(), target)) || beneath
    }
}

/// [`retag`] over the work queue without what is set aside under the `binned` element keys.
pub fn retag_without(
    committed: &ScryModel,
    planned: &mut ScryModel,
    targets: &Vec<String>,
    to: Option<&str>,
    binned: &Vec<String>,
) -> (r: Result<Retag, String>)
    ensures
        ({
            let p = old(planned).deep_view();
            let c = committed.deep_view();
            let pend = not_vagrant(p, not_binned(diff_of(c, p), binned.deep_view()));
            let dst = ref_view(to);
            match r {
                Ok(out) => {
                    &&& dst is Some ==> has_named::<ChangeMeta>(p.changes, dst->0)
                    &&& out.deep_view() == retagged(p, c, targets.deep_view(), pend, dst)
                    &&& final(planned).deep_view() == (ScryModelView {
                        change_map: refiled_all(p, c, targets.deep_view(), pend, dst),
                        ..p
                    })
                },
                Err(e) => {
                    &&& dst is Some
                    &&& !has_named::<ChangeMeta>(p.changes, dst->0)
                    &&& e@ == no_open_change(dst->0)
                    &&& final(planned).deep_view() == p
                },
            }
        }),
{
    match to {
        Some(dst) => {
            if !there(&planned.changes, dst) {
                return Err(cat3("no open change '", dst, "'"));
            }
        },
        None => {},
    }
    let ghost p = planned.deep_view();
    let ghost c = committed.deep_view();
    let ghost dst = ref_view(to);
    let was = planned.dup();
    let to_owned: Option<String> = match to {
        Some(s) => Some(s.to_owned()),
        None => None,
    };
    let pending = pending_elements_without(committed, planned, binned);
    let ghost pend = pending.deep_view();
    let ghost ts = targets.deep_view();
    let mut map = planned.change_map.dup();
    let mut moved: Vec<(String, Option<String>)> = fresh();
    let mut unmatched: Vec<String> = fresh();
    let mut i: usize = 0;
    assert(ts.take(0) =~= Seq::<Seq<char>>::empty());
    while i < targets.len()
        invariant
            i <= targets@.len(),
            ts == targets.deep_view(),
            pend == pending.deep_view(),
            p == was.deep_view(),
            c == committed.deep_view(),
            dst == to_owned.deep_view(),
            map.deep_view() == refiled_all(p, c, ts.take(i as int), pend, dst),
            moved.deep_view() == retagged(p, c, ts.take(i as int), pend, dst).moved,
            unmatched.deep_view() == retagged(p, c, ts.take(i as int), pend, dst).unmatched,
        decreases targets@.len() - i,
    {
        let target = at(targets, i);
        let ghost t = target@;
        assert(ts.take(i + 1).drop_last() =~= ts.take(i as int));
        let ghost map0 = map.deep_view();
        let ghost moved0 = moved.deep_view();
        let mut hit: bool = false;
        let mut j: usize = 0;
        assert(pend.take(0) =~= Seq::<ElementChangeView>::empty());
        assert(moved0 + moves(p, c, map0, t, pend.take(0), dst) =~= moved0);
        while j < pending.len()
            invariant
                j <= pending@.len(),
                t == target@,
                pend == pending.deep_view(),
                p == was.deep_view(),
                c == committed.deep_view(),
                dst == to_owned.deep_view(),
                map.deep_view() == refiled(p, c, map0, t, pend.take(j as int), dst),
                moved.deep_view() == moved0 + moves(p, c, map0, t, pend.take(j as int), dst),
                hit == hits(p, c, map0, t, pend.take(j as int), dst),
            decreases pending@.len() - j,
        {
            let ec = at(&pending, j);
            assert(pend.take(j + 1).drop_last() =~= pend.take(j as int));
            let k = key_for(ec);
            let current: Option<String> = match map.get(k.as_str()) {
                Some(v) => Some(v.clone()),
                None => None,
            };
            if is_meant(&was, committed, target.as_str(), ec, &current) {
                hit = true;
                if !current.same(&to_owned) {
                    match &to_owned {
                        Some(d) => {
                            map.insert(k.clone(), d.clone());
                        },
                        None => {
                            map.remove(k.as_str());
                        },
                    }
                    put(&mut moved, (k, current));
                    assert(moved.deep_view() =~= moved0 + moves(
                        p,
                        c,
                        map0,
                        t,
                        pend.take(j + 1),
                        dst,
                    ));
                }
            }
            j += 1;
        }
        assert(pend.take(pend.len() as int) =~= pend);
        if !hit {
            put(&mut unmatched, target.clone());
        }
        i += 1;
    }
    assert(ts.take(ts.len() as int) =~= ts);
    planned.change_map = map;
    Ok(Retag { moved, unmatched })
}

/// Moves pending work between changes. The targets are ids of the plan as it
/// stands; `to` is the change to file under, or none to unfile. What is already
/// there is not reported as moved.
pub fn retag(
    committed: &ScryModel,
    planned: &mut ScryModel,
    targets: &Vec<String>,
    to: Option<&str>,
) -> (r: Result<Retag, String>)
    ensures
        ({
            let p = old(planned).deep_view();
            let c = committed.deep_view();
            let pend = not_vagrant(p, diff_of(c, p));
            let dst = ref_view(to);
            match r {
                Ok(out) => {
                    &&& dst is Some ==> has_named::<ChangeMeta>(p.changes, dst->0)
                    &&& out.deep_view() == retagged(p, c, targets.deep_view(), pend, dst)
                    &&& final(planned).deep_view() == (ScryModelView {
                        change_map: refiled_all(p, c, targets.deep_view(), pend, dst),
                        ..p
                    })
                },
                Err(e) => {
                    &&& dst is Some
                    &&& !has_named::<ChangeMeta>(p.changes, dst->0)
                    &&& e@ == no_open_change(dst->0)
                    &&& final(planned).deep_view() == p
                },
            }
        }),
{
    proof {
        law_nothing_binned(diff_of(committed.deep_view(), planned.deep_view()));
    }
    retag_without(committed, planned, targets, to, &fresh())
}

// ---- clean-up -------------------------------------------------------------------

/// The keys of the plan entries.
pub open spec fn entry_keys(d: Seq<ElementChangeView>) -> Seq<Seq<char>> {
    Seq::new(d.len(), |i: int| key_of(d[i]))
}

fn plan_keys(d: &Vec<ElementChange>) -> (r: Vec<String>)
    ensures
        r.deep_view() == entry_keys(d.deep_view()),
{
    let ghost all = entry_keys(d.deep_view());
    let mut out: Vec<String> = fresh();
    let mut i: usize = 0;
    assert(all.take(0) =~= Seq::<Seq<char>>::empty());
    while i < d.len()
        invariant
            i <= d@.len(),
            all == entry_keys(d.deep_view()),
            out.deep_view() == all.take(i as int),
        decreases d@.len() - i,
    {
        put(&mut out, key_for(at(d, i)));
        assert(all.take(i + 1) =~= all.take(i as int).push(all[i as int]));
        i += 1;
    }
    assert(all.take(all.len() as int) =~= all);
    out
}

/// The keys of `ks` that are not among `valid`, in order.
pub open spec fn dead(ks: Seq<Seq<char>>, valid: Seq<Seq<char>>) -> Seq<Seq<char>>
    decreases ks.len(),
{
    if ks.len() == 0 {
        Seq::empty()
    } else if valid.contains(ks.last()) {
        dead(ks.drop_last(), valid)
    } else {
        dead(ks.drop_last(), valid).push(ks.last())
    }
}

/// The tags of a change that name nothing pending, in ascending order.
pub open spec fn dead_of(c: ScryModelView, p: ScryModelView, cid: Seq<char>) -> Seq<Seq<char>> {
    dead(keys_of(p.change_map, cid), entry_keys(diff_of(c, p)))
}

fn dead_keys(ks: &Vec<String>, valid: &Vec<String>) -> (r: Vec<String>)
    ensures
        r.deep_view() == dead(ks.deep_view(), valid.deep_view()),
{
    let ghost kv = ks.deep_view();
    let mut out: Vec<String> = fresh();
    let mut i: usize = 0;
    assert(kv.take(0) =~= Seq::<Seq<char>>::empty());
    while i < ks.len()
        invariant
            i <= ks@.len(),
            kv == ks.deep_view(),
            out.deep_view() == dead(kv.take(i as int), valid.deep_view()),
        decreases ks@.len() - i,
    {
        let k = at(ks, i);
        assert(kv.take(i + 1).drop_last() =~= kv.take(i as int));
        if !holds(valid, k.as_str()) {
            put(&mut out, k.clone());
        }
        i += 1;
    }
    assert(kv.take(kv.len() as int) =~= kv);
    out
}

/// The tags of a change that name nothing pending: the ones [`gc`] prunes.
pub fn dead_tags(committed: &ScryModel, planned: &ScryModel, change_id: &str) -> (r: Vec<String>)
    ensures
        r.deep_view() == dead_of(committed.deep_view(), planned.deep_view(), change_id@),
{
    let valid = plan_keys(&diff(committed, planned).changes);
    let mine = filed_under(&planned.change_map, change_id);
    dead_keys(&mine, &valid)
}

/// Would [`gc`] close this change: does it carry tags, all of them dead?
pub fn would_abandon(committed: &ScryModel, planned: &ScryModel, change_id: &str) -> (r: bool)
    ensures
        r == ({
            let tags = keys_of(planned.deep_view().change_map, change_id@);
            tags.len() > 0 && dead_of(
                committed.deep_view(),
                planned.deep_view(),
                change_id@,
            ).len() == tags.len()
        }),
{
    let tags: usize = filed_under(&planned.change_map, change_id).len();
    tags > 0 && dead_tags(committed, planned, change_id).len() == tags
}

/// The tags that name a plan entry.
pub open spec fn live_tags(
    map: Map<Seq<char>, Seq<char>>,
    valid: Seq<Seq<char>>,
) -> Map<Seq<char>, Seq<char>> {
    map.restrict(valid.to_set())
}

/// Does pruning take the last tag of a change: had it a dead one, and has it no
/// live one?
pub open spec fn finishes(
    map: Map<Seq<char>, Seq<char>>,
    valid: Seq<Seq<char>>,
    cid: Seq<char>,
) -> bool {
    &&& exists|k: Seq<char>|
        #[trigger] map.contains_key(k) && map[k] == cid && !valid.contains(k)
    &&& forall|k: Seq<char>|
        #[trigger] map.contains_key(k) && map[k] == cid ==> !valid.contains(k)
}

/// The changes that pruning finishes (or not), in order.
pub open spec fn finishing(
    cs: Seq<ChangeMetaView>,
    map: Map<Seq<char>, Seq<char>>,
    valid: Seq<Seq<char>>,
    yes: bool,
) -> Seq<ChangeMetaView>
    decreases cs.len(),
{
    if cs.len() == 0 {
        Seq::empty()
    } else if finishes(map, valid, cs.last().id) == yes {
        finishing(cs.drop_last(), map, valid, yes).push(cs.last())
    } else {
        finishing(cs.drop_last(), map, valid, yes)
    }
}

/// The plan after the clean-up.
pub open spec fn cleaned(c: ScryModelView, p: ScryModelView) -> ScryModelView {
    let valid = entry_keys(diff_of(c, p));
    ScryModelView {
        change_map: live_tags(p.change_map, valid),
        changes: finishing(p.changes, p.change_map, valid, false),
        ..p
    }
}

/// The changes that the clean-up closes.
pub open spec fn closed_by_cleaning(c: ScryModelView, p: ScryModelView) -> Seq<ChangeMetaView> {
    finishing(p.changes, p.change_map, entry_keys(diff_of(c, p)), true)
}

fn is_finished(map: &StrMap<String>, valid: &Vec<String>, cid: &str) -> (r: bool)
    ensures
        r == finishes(map.deep_view(), valid.deep_view(), cid@),
{
    let ghost m = map.deep_view();
    let ghost vv = valid.deep_view();
    let mine = filed_under(map, cid);
    let ghost mv = mine.deep_view();
    let mut i: usize = 0;
    while i < mine.len()
        invariant
            i <= mine@.len(),
            mv == mine.deep_view(),
            vv == valid.deep_view(),
            m == map.deep_view(),
            forall|k: Seq<char>|
                #[trigger] mv.contains(k) <==> (m.contains_key(k) && m[k] == cid@),
            forall|j: int| 0 <= j < i ==> !vv.contains(#[trigger] mv[j]),
        decreases mine@.len() - i,
    {
        let k = at(&mine, i);
        if holds(valid, k.as_str()) {
            assert(mv.contains(mv[i as int]));
            return false;
        }
        i += 1;
    }
    proof {
        assert forall|k: Seq<char>| #[trigger] m.contains_key(k) && m[k] == cid@ implies !vv.contains(
            k,
        ) by {
            assert(mv.contains(k));
        }
        if mv.len() > 0 {
            assert(mv.contains(mv[0]));
            assert(m.contains_key(mv[0]));
        } else {
            assert forall|k: Seq<char>| #[trigger] m.contains_key(k) implies m[k] != cid@ by {
                assert(mv.contains(k) <==> (m.contains_key(k) && m[k] == cid@));
            }
        }
    }
    mine.len() > 0
}

/// Prunes the tags that name no plan entry, and closes the changes that lose
/// their last tag by it. A change that has no tags yet is left alone.
pub fn gc(committed: &ScryModel, planned: &mut ScryModel) -> (r: Gc)
    ensures
        final(planned).deep_view() == cleaned(committed.deep_view(), old(planned).deep_view()),
        r.deep_view().closed == closed_by_cleaning(
            committed.deep_view(),
            old(planned).deep_view(),
        ),
        r.pruned == old(planned).deep_view().change_map.len() - final(planned).deep_view().change_map.len(),
        r.pruned == 0 <==> final(planned).deep_view().change_map == old(planned).deep_view().change_map,
{
    let ghost c = committed.deep_view();
    let ghost p = planned.deep_view();
    let valid = plan_keys(&diff(committed, planned).changes);
    let ghost vv = valid.deep_view();
    let live = planned.change_map.only(&valid);
    let before: usize = planned.change_map.len();
    let after: usize = live.len();
    proof {
        let a = live.deep_view().dom();
        let b = p.change_map.dom();
        assert(a.subset_of(b));
        vstd::set_lib::lemma_len_subset(a, b);
        if a.len() == b.len() {
            vstd::set_lib::lemma_subset_equality(a, b);
            assert(live.deep_view() =~= p.change_map);
        }
    }
    let ghost cs = p.changes;
    let mut closed: Vec<ChangeMeta> = fresh();
    let mut kept: Vec<ChangeMeta> = fresh();
    let mut i: usize = 0;
    assert(cs.take(0) =~= Seq::<ChangeMetaView>::empty());
    while i < planned.changes.len()
        invariant
            i <= planned.changes@.len(),
            p == planned.deep_view(),
            cs == p.changes,
            vv == valid.deep_view(),
            closed.deep_view() == finishing(cs.take(i as int), p.change_map, vv, true),
            kept.deep_view() == finishing(cs.take(i as int), p.change_map, vv, false),
        decreases planned.changes@.len() - i,
    {
        let m = at(&planned.changes, i);
        assert(cs.take(i + 1).drop_last() =~= cs.take(i as int));
        if is_finished(&planned.change_map, &valid, m.id.as_str()) {
            put(&mut closed, m.dup());
        } else {
            put(&mut kept, m.dup());
        }
        i += 1;
    }
    assert(cs.take(cs.len() as int) =~= cs);
    planned.change_map = live;
    planned.changes = kept;
    assert(planned.deep_view() =~= cleaned(c, p));
    Gc { pruned: before - after, closed }
}

// ---- closing --------------------------------------------------------------------

/// What is said of a change that still carries entries.
pub open spec fn still_tagged(cid: Seq<char>, n: nat) -> Seq<char> {
    cid + " still has "@ + decimal(n) + " tagged entr"@ + (if n == 1 {
        "y"@
    } else {
        "ies"@
    })
        + " — fold or revert them; the change closes itself when its last entry goes"@
}

/// Closes an open change that carries nothing. Refused while anything is filed
/// under it: that closes by folding or reverting.
pub fn close_change(plan: &mut ScryModel, change_id: &str) -> (r: Result<ChangeMeta, String>)
    ensures
        ({
            let p = old(plan).deep_view();
            let i = place_of::<ChangeMeta>(p.changes, change_id@);
            let n = keys_of(p.change_map, change_id@).len();
            match r {
                Ok(meta) => {
                    &&& has_named::<ChangeMeta>(p.changes, change_id@)
                    &&& n == 0
                    &&& meta.deep_view() == p.changes[i]
                    &&& final(plan).deep_view() == (ScryModelView {
                        changes: p.changes.remove(i),
                        ..p
                    })
                },
                Err(e) => {
                    &&& final(plan).deep_view() == p
                    &&& {
                        ||| !has_named::<ChangeMeta>(p.changes, change_id@) && e@
                            == no_open_change(change_id@)
                        ||| has_named::<ChangeMeta>(p.changes, change_id@) && n > 0 && e@
                            == still_tagged(change_id@, n)
                    }
                },
            }
        }),
{
    match find(&plan.changes, change_id) {
        None => Err(cat3("no open change '", change_id, "'")),
        Some(i) => {
            let n: usize = filed_under(&plan.change_map, change_id).len();
            if n > 0 {
                let mut s = cat3(change_id, " still has ", dec(n as u64).as_str());
                s.append(" tagged entr");
                s.append(if n == 1 { "y" } else { "ies" });
                s.append(" — fold or revert them; the change closes itself when its last entry goes");
                return Err(s);
            }
            Ok(remove_at(&mut plan.changes, i))
        },
    }
}

fn remove_at(cs: &mut Vec<ChangeMeta>, i: usize) -> (r: ChangeMeta)
    requires
        i < old(cs)@.len(),
    ensures
        r.deep_view() == old(cs).deep_view()[i as int],
        final(cs).deep_view() == old(cs).deep_view().remove(i as int),
{
    let ghost before = cs.deep_view();
    let r = cs.remove(i);
    assert(cs.deep_view() =~= before.remove(i as int));
    r
}

// ---- reverting ------------------------------------------------------------------

/// Does the entry add its element?
pub open spec fn adds(ch: ElementChangeView) -> bool {
    ch.changes.contains(ChangeView::Added)
}

/// Does the entry delete its element?
pub open spec fn deletes(ch: ElementChangeView) -> bool {
    ch.changes.contains(ChangeView::Deleted)
}

/// Does the entry move its element?
pub open spec fn relocates(ch: ElementChangeView) -> bool {
    exists|i: int| 0 <= i < ch.changes.len() && (#[trigger] ch.changes[i]) is Moved
}

/// The one word for what a plan entry does.
pub open spec fn word_for(ch: ElementChangeView) -> Seq<char> {
    if adds(ch) {
        "added"@
    } else if deletes(ch) {
        "deleted"@
    } else if relocates(ch) {
        "moved"@
    } else {
        "reworded"@
    }
}

/// Does the entry add its element?
pub fn is_added(ec: &ElementChange) -> (r: bool)
    ensures
        r == adds(ec.deep_view()),
{
    let ghost cs = ec.deep_view().changes;
    let mut i: usize = 0;
    while i < ec.changes.len()
        invariant
            i <= ec.changes@.len(),
            cs == ec.changes.deep_view(),
            forall|j: int| 0 <= j < i ==> #[trigger] cs[j] != ChangeView::Added,
        decreases ec.changes@.len() - i,
    {
        match at(&ec.changes, i) {
            Change::Added => {
                assert(cs[i as int] == ChangeView::Added);
                return true;
            },
            _ => {},
        }
        i += 1;
    }
    false
}

/// Does the entry delete its element?
pub fn is_deletion(ec: &ElementChange) -> (r: bool)
    ensures
        r == deletes(ec.deep_view()),
{
    let ghost cs = ec.deep_view().changes;
    let mut i: usize = 0;
    while i < ec.changes.len()
        invariant
            i <= ec.changes@.len(),
            cs == ec.changes.deep_view(),
            forall|j: int| 0 <= j < i ==> #[trigger] cs[j] != ChangeView::Deleted,
        decreases ec.changes@.len() - i,
    {
        match at(&ec.changes, i) {
            Change::Deleted => {
                assert(cs[i as int] == ChangeView::Deleted);
                return true;
            },
            _ => {},
        }
        i += 1;
    }
    false
}

fn is_move(ec: &ElementChange) -> (r: bool)
    ensures
        r == relocates(ec.deep_view()),
{
    let ghost cs = ec.deep_view().changes;
    let mut i: usize = 0;
    while i < ec.changes.len()
        invariant
            i <= ec.changes@.len(),
            cs == ec.changes.deep_view(),
            forall|j: int| 0 <= j < i ==> !((#[trigger] cs[j]) is Moved),
        decreases ec.changes@.len() - i,
    {
        match at(&ec.changes, i) {
            Change::Moved { .. } => {
                assert(cs[i as int] is Moved);
                return true;
            },
            _ => {},
        }
        i += 1;
    }
    false
}

/// The one word for what a plan entry does.
pub fn what_of(ec: &ElementChange) -> (r: &'static str)
    ensures
        r@ == word_for(ec.deep_view()),
{
    if is_added(ec) {
        "added"
    } else if is_deletion(ec) {
        "deleted"
    } else if is_move(ec) {
        "moved"
    } else {
        "reworded"
    }
}

/// The nodes with the claim `id` put back on each host that has it in `from`.
pub open spec fn claims_back_on_nodes(
    ns: Seq<NodeView>,
    from: Seq<NodeView>,
    id: Seq<char>,
) -> Seq<NodeView>
    decreases from.len(),
{
    if from.len() == 0 {
        ns
    } else {
        let done = claims_back_on_nodes(ns, from.drop_last(), id);
        match first::<Responsibility>(from.last().responsibilities, id) {
            None => done,
            Some(r) => {
                let i = place_of::<Node>(done, from.last().id);
                if i < done.len() {
                    done.update(
                        i,
                        NodeView {
                            responsibilities: done[i].responsibilities.push(r),
                            ..done[i]
                        },
                    )
                } else {
                    done
                }
            },
        }
    }
}

/// The groups with the claim `id` put back on each host that has it in `from`.
pub open spec fn claims_back_on_groups(
    gs: Seq<GroupView>,
    from: Seq<GroupView>,
    id: Seq<char>,
) -> Seq<GroupView>
    decreases from.len(),
{
    if from.len() == 0 {
        gs
    } else {
        let done = claims_back_on_groups(gs, from.drop_last(), id);
        match first::<Responsibility>(from.last().responsibilities, id) {
            None => done,
            Some(r) => {
                let i = place_of::<Group>(done, from.last().id);
                if i < done.len() {
                    done.update(
                        i,
                        GroupView {
                            responsibilities: done[i].responsibilities.push(r),
                            ..done[i]
                        },
                    )
                } else {
                    done
                }
            },
        }
    }
}

/// The members of a group without `id`.
pub open spec fn member_gone(gs: Seq<GroupView>, id: Seq<char>) -> Seq<GroupView> {
    Seq::new(
        gs.len(),
        |i: int|
            GroupView { member_ids: crate::diff::without(gs[i].member_ids, seq![id]), ..gs[i] },
    )
}

/// The links that do not touch `id`, in order.
pub open spec fn links_away_from(ls: Seq<LinkView>, id: Seq<char>) -> Seq<LinkView>
    decreases ls.len(),
{
    if ls.len() == 0 {
        Seq::empty()
    } else if ls.last().src != id && ls.last().dst != id {
        links_away_from(ls.drop_last(), id).push(ls.last())
    } else {
        links_away_from(ls.drop_last(), id)
    }
}

/// A node with the own fields of `c`, keeping its claims, properties and flags.
pub open spec fn own_fields_of(n: NodeView, c: NodeView) -> NodeView {
    NodeView {
        id: n.id,
        vagrant: n.vagrant,
        stale: n.stale,
        responsibilities: n.responsibilities,
        properties: n.properties,
        ..c
    }
}

/// The plan with one entry undone: what it added is removed, anything else is as
/// committed has it. Only the element the entry names is touched: a node or a group that
/// the plan still has keeps its claims, which are entries in their own right.
pub open spec fn reverted(
    p: ScryModelView,
    c: ScryModelView,
    ch: ElementChangeView,
) -> ScryModelView {
    match ch.kind {
        ElementKind::Responsibility => {
            let ns = nodes_without_claim(p.nodes, ch.id);
            let gs = groups_without_claim(p.groups, ch.id);
            if adds(ch) {
                ScryModelView { nodes: ns, groups: gs, ..p }
            } else {
                ScryModelView {
                    nodes: claims_back_on_nodes(ns, c.nodes, ch.id),
                    groups: claims_back_on_groups(gs, c.groups, ch.id),
                    ..p
                }
            }
        },
        ElementKind::Property => match ch.owner_id {
            None => p,
            Some(owner) => {
                let i = place_of::<Node>(p.nodes, owner);
                if i < p.nodes.len() {
                    let n = p.nodes[i];
                    let bare = others::<SchemaProperty>(n.properties, ch.id);
                    let was = match first::<Node>(c.nodes, owner) {
                        Some(cn) => first::<SchemaProperty>(cn.properties, ch.id),
                        None => None,
                    };
                    let props = if !adds(ch) && was is Some {
                        bare.push(was->0)
                    } else {
                        bare
                    };
                    ScryModelView {
                        nodes: p.nodes.update(i, NodeView { properties: props, ..n }),
                        ..p
                    }
                } else {
                    p
                }
            },
        },
        ElementKind::Link => {
            let bare = others::<Link>(p.links, ch.id);
            let was = first::<Link>(c.links, ch.id);
            ScryModelView {
                links: if !adds(ch) && was is Some {
                    bare.push(was->0)
                } else {
                    bare
                },
                ..p
            }
        },
        ElementKind::Group => if adds(ch) {
            ScryModelView { groups: others::<Group>(p.groups, ch.id), ..p }
        } else {
            match first::<Group>(c.groups, ch.id) {
                None => p,
                Some(cg) => {
                    let i = place_of::<Group>(p.groups, ch.id);
                    ScryModelView {
                        groups: if i < p.groups.len() {
                            p.groups.update(
                                i,
                                GroupView { responsibilities: p.groups[i].responsibilities, ..cg },
                            )
                        } else {
                            p.groups.push(cg)
                        },
                        ..p
                    }
                },
            }
        },
        ElementKind::Node => if adds(ch) {
            ScryModelView {
                nodes: others::<Node>(p.nodes, ch.id),
                links: links_away_from(p.links, ch.id),
                groups: member_gone(p.groups, ch.id),
                boundaries: p.boundaries.remove(ch.id),
                ..p
            }
        } else {
            match first::<Node>(c.nodes, ch.id) {
                None => p,
                Some(cn) => {
                    let i = place_of::<Node>(p.nodes, ch.id);
                    ScryModelView {
                        nodes: if i < p.nodes.len() {
                            p.nodes.update(i, own_fields_of(p.nodes[i], cn))
                        } else {
                            p.nodes.push(cn)
                        },
                        ..p
                    }
                },
            }
        },
    }
}

fn restore_on_nodes(ns: &mut Vec<Node>, from: &Vec<Node>, id: &str)
    ensures
        final(ns).deep_view() == claims_back_on_nodes(old(ns).deep_view(), from.deep_view(), id@),
{
    let ghost n0 = ns.deep_view();
    let ghost fv = from.deep_view();
    let mut i: usize = 0;
    assert(fv.take(0) =~= Seq::<NodeView>::empty());
    while i < from.len()
        invariant
            i <= from@.len(),
            fv == from.deep_view(),
            ns.deep_view() == claims_back_on_nodes(n0, fv.take(i as int), id@),
        decreases from@.len() - i,
    {
        let n = at(from, i);
        assert(fv.take(i + 1).drop_last() =~= fv.take(i as int));
        match pick(&n.responsibilities, id) {
            Some(r) => match find(ns, n.id.as_str()) {
                Some(k) => {
                    let mut t = at(ns, k).dup();
                    put(&mut t.responsibilities, r);
                    set_at(ns, k, t);
                },
                None => {},
            },
            None => {},
        }
        i += 1;
    }
    assert(fv.take(fv.len() as int) =~= fv);
}

fn restore_on_groups(gs: &mut Vec<Group>, from: &Vec<Group>, id: &str)
    ensures
        final(gs).deep_view() == claims_back_on_groups(old(gs).deep_view(), from.deep_view(), id@),
{
    let ghost g0 = gs.deep_view();
    let ghost fv = from.deep_view();
    let mut i: usize = 0;
    assert(fv.take(0) =~= Seq::<GroupView>::empty());
    while i < from.len()
        invariant
            i <= from@.len(),
            fv == from.deep_view(),
            gs.deep_view() == claims_back_on_groups(g0, fv.take(i as int), id@),
        decreases from@.len() - i,
    {
        let g = at(from, i);
        assert(fv.take(i + 1).drop_last() =~= fv.take(i as int));
        match pick(&g.responsibilities, id) {
            Some(r) => match find(gs, g.id.as_str()) {
                Some(k) => {
                    let mut t = at(gs, k).dup();
                    put(&mut t.responsibilities, r);
                    set_at(gs, k, t);
                },
                None => {},
            },
            None => {},
        }
        i += 1;
    }
    assert(fv.take(fv.len() as int) =~= fv);
}

fn drop_member(gs: &Vec<Group>, id: &str) -> (r: Vec<Group>)
    ensures
        r.deep_view() == member_gone(gs.deep_view(), id@),
{
    let ghost all = member_gone(gs.deep_view(), id@);
    let mut out: Vec<Group> = fresh();
    let mut one: Vec<String> = fresh();
    put(&mut one, id.to_owned());
    assert(one.deep_view() =~= seq![id@]);
    let mut i: usize = 0;
    assert(all.take(0) =~= Seq::<GroupView>::empty());
    while i < gs.len()
        invariant
            i <= gs@.len(),
            one.deep_view() == seq![id@],
            all == member_gone(gs.deep_view(), id@),
            out.deep_view() == all.take(i as int),
        decreases gs@.len() - i,
    {
        let mut g = at(gs, i).dup();
        g.member_ids = crate::diff::minus(&g.member_ids, &one);
        put(&mut out, g);
        assert(all.take(i + 1) =~= all.take(i as int).push(all[i as int]));
        i += 1;
    }
    assert(all.take(all.len() as int) =~= all);
    out
}

fn drop_links(ls: &Vec<Link>, id: &str) -> (r: Vec<Link>)
    ensures
        r.deep_view() == links_away_from(ls.deep_view(), id@),
{
    let ghost lv = ls.deep_view();
    let mut out: Vec<Link> = fresh();
    let mut i: usize = 0;
    assert(lv.take(0) =~= Seq::<LinkView>::empty());
    while i < ls.len()
        invariant
            i <= ls@.len(),
            lv == ls.deep_view(),
            out.deep_view() == links_away_from(lv.take(i as int), id@),
        decreases ls@.len() - i,
    {
        let l = at(ls, i);
        assert(lv.take(i + 1).drop_last() =~= lv.take(i as int));
        if !same_text(l.src.as_str(), id) && !same_text(l.dst.as_str(), id) {
            put(&mut out, l.dup());
        }
        i += 1;
    }
    assert(lv.take(lv.len() as int) =~= lv);
    out
}

/// Takes one plan entry back to what committed says of its element, and of nothing else.
pub fn revert_one(plan: &mut ScryModel, committed: &ScryModel, ec: &ElementChange)
    ensures
        final(plan).deep_view() == reverted(
            old(plan).deep_view(),
            committed.deep_view(),
            ec.deep_view(),
        ),
{
    let ghost p = plan.deep_view();
    let ghost c = committed.deep_view();
    let ghost ch = ec.deep_view();
    let added = is_added(ec);
    let id = ec.id.as_str();
    match ec.kind {
        ElementKind::Responsibility => {
            plan.nodes = strip_nodes(&plan.nodes, id);
            plan.groups = strip_groups(&plan.groups, id);
            if !added {
                restore_on_nodes(&mut plan.nodes, &committed.nodes, id);
                restore_on_groups(&mut plan.groups, &committed.groups, id);
            }
        },
        ElementKind::Property => match &ec.owner_id {
            None => {},
            Some(owner) => match find(&plan.nodes, owner.as_str()) {
                None => {},
                Some(i) => {
                    let mut n = at(&plan.nodes, i).dup();
                    n.properties = except(&n.properties, id);
                    if !added {
                        match find(&committed.nodes, owner.as_str()) {
                            Some(k) => match pick(&at(&committed.nodes, k).properties, id) {
                                Some(prop) => {
                                    put(&mut n.properties, prop);
                                },
                                None => {},
                            },
                            None => {},
                        }
                    }
                    set_at(&mut plan.nodes, i, n);
                },
            },
        },
        ElementKind::Link => {
            plan.links = except(&plan.links, id);
            if !added {
                match pick(&committed.links, id) {
                    Some(l) => {
                        put(&mut plan.links, l);
                    },
                    None => {},
                }
            }
        },
        ElementKind::Group => {
            if added {
                plan.groups = except(&plan.groups, id);
            } else {
                match pick(&committed.groups, id) {
                    None => {},
                    Some(cg) => match find(&plan.groups, id) {
                        Some(i) => {
                            let mut g = cg;
                            g.responsibilities = at(&plan.groups, i).responsibilities.dup();
                            set_at(&mut plan.groups, i, g);
                        },
                        None => {
                            put(&mut plan.groups, cg);
                        },
                    },
                }
            }
        },
        ElementKind::Node => {
            if added {
                plan.nodes = except(&plan.nodes, id);
                plan.links = drop_links(&plan.links, id);
                plan.groups = drop_member(&plan.groups, id);
                plan.boundaries.remove(id);
            } else {
                match pick(&committed.nodes, id) {
                    None => {},
                    Some(cn) => match find(&plan.nodes, id) {
                        Some(i) => {
                            let mut n = at(&plan.nodes, i).dup();
                            n.kind = cn.kind;
                            n.name = cn.name;
                            n.parent_id = cn.parent_id;
                            n.external = cn.external;
                            n.technology = cn.technology;
                            n.description = cn.description;
                            n.directives = cn.directives;
                            n.icon = cn.icon;
                            n.notes = cn.notes;
                            n.position = cn.position;
                            set_at(&mut plan.nodes, i, n);
                        },
                        None => {
                            put(&mut plan.nodes, cn);
                        },
                    },
                }
            }
        },
    }
    assert(plan.deep_view() =~= reverted(p, c, ch));
}

// ---- abandoning -----------------------------------------------------------------

/// The plan entries whose key is among `keys`, in order.
pub open spec fn entries_under(
    d: Seq<ElementChangeView>,
    keys: Seq<Seq<char>>,
) -> Seq<ElementChangeView>
    decreases d.len(),
{
    if d.len() == 0 {
        Seq::empty()
    } else if keys.contains(key_of(d.last())) {
        entries_under(d.drop_last(), keys).push(d.last())
    } else {
        entries_under(d.drop_last(), keys)
    }
}

/// The names of the nodes under `id` whose key is not among `keys`, in order.
pub open spec fn strangers_under(
    ns: Seq<NodeView>,
    id: Seq<char>,
    keys: Seq<Seq<char>>,
) -> Seq<Seq<char>>
    decreases ns.len(),
{
    if ns.len() == 0 {
        Seq::empty()
    } else {
        let n = ns.last();
        let rest = strangers_under(ns.drop_last(), id, keys);
        if n.parent_id == Some(id) && !keys.contains(key(ElementKind::Node, None, n.id)) {
            rest.push(n.name)
        } else {
            rest
        }
    }
}

/// Whom dropping an entry would strand.
pub open spec fn stranded_by(
    p: ScryModelView,
    ch: ElementChangeView,
    keys: Seq<Seq<char>>,
) -> Seq<Seq<char>> {
    if ch.kind == ElementKind::Node && adds(ch) {
        strangers_under(p.nodes, ch.id, keys)
    } else {
        Seq::empty()
    }
}

/// What is said when dropping would strand others.
pub open spec fn would_strand(
    cid: Seq<char>,
    label: Seq<char>,
    stranded: Seq<Seq<char>>,
) -> Seq<char> {
    cid + " adds '"@ + label + "', and "@ + decimal(stranded.len()) + " under it "@ + (
    if stranded.len() == 1 {
        "is"@
    } else {
        "are"@
    }) + " not this change's to drop: "@ + joined(stranded, ", "@)
        + ". Refile or fold those first."@
}

/// The plan with these entries undone, one after the other.
pub open spec fn all_reverted(
    p: ScryModelView,
    c: ScryModelView,
    mine: Seq<ElementChangeView>,
) -> ScryModelView
    decreases mine.len(),
{
    if mine.len() == 0 {
        p
    } else {
        reverted(all_reverted(p, c, mine.drop_last()), c, mine.last())
    }
}

/// The report on a dropped entry.
pub open spec fn dropped_entry(ch: ElementChangeView) -> DroppedEntryView {
    DroppedEntryView { key: key_of(ch), label: ch.label, what: word_for(ch) }
}

/// Is `i` the first of the entries that would strand others?
pub open spec fn strands_first(
    p: ScryModelView,
    mine: Seq<ElementChangeView>,
    keys: Seq<Seq<char>>,
    i: int,
) -> bool {
    &&& 0 <= i < mine.len()
    &&& stranded_by(p, mine[i], keys).len() > 0
    &&& forall|j: int| 0 <= j < i ==> stranded_by(p, #[trigger] mine[j], keys).len() == 0
}

fn own_entries(d: &Vec<ElementChange>, keys: &Vec<String>) -> (r: Vec<ElementChange>)
    ensures
        r.deep_view() == entries_under(d.deep_view(), keys.deep_view()),
{
    let ghost dv = d.deep_view();
    let mut out: Vec<ElementChange> = fresh();
    let mut i: usize = 0;
    assert(dv.take(0) =~= Seq::<ElementChangeView>::empty());
    while i < d.len()
        invariant
            i <= d@.len(),
            dv == d.deep_view(),
            out.deep_view() == entries_under(dv.take(i as int), keys.deep_view()),
        decreases d@.len() - i,
    {
        let c = at(d, i);
        assert(dv.take(i + 1).drop_last() =~= dv.take(i as int));
        if holds(keys, key_for(c).as_str()) {
            put(&mut out, c.dup());
        }
        i += 1;
    }
    assert(dv.take(dv.len() as int) =~= dv);
    out
}

fn strangers(ns: &Vec<Node>, id: &str, keys: &Vec<String>) -> (r: Vec<String>)
    ensures
        r.deep_view() == strangers_under(ns.deep_view(), id@, keys.deep_view()),
{
    let ghost nv = ns.deep_view();
    let mut out: Vec<String> = fresh();
    let mut i: usize = 0;
    assert(nv.take(0) =~= Seq::<NodeView>::empty());
    while i < ns.len()
        invariant
            i <= ns@.len(),
            nv == ns.deep_view(),
            out.deep_view() == strangers_under(nv.take(i as int), id@, keys.deep_view()),
        decreases ns@.len() - i,
    {
        let n = at(ns, i);
        assert(nv.take(i + 1).drop_last() =~= nv.take(i as int));
        let under = match &n.parent_id {
            Some(p) => same_text(p.as_str(), id),
            None => false,
        };
        if under {
            let k = element_key(ElementKind::Node, None, n.id.as_str());
            if !holds(keys, k.as_str()) {
                put(&mut out, n.name.clone());
            }
        }
        i += 1;
    }
    assert(nv.take(nv.len() as int) =~= nv);
    out
}

/// Closes a change and drops the entries it still carries: each goes back to what
/// committed says. Refused where dropping an added node would strand nodes that
/// are not this change's.
pub fn abandon_change(
    committed: &ScryModel,
    plan: &mut ScryModel,
    change_id: &str,
) -> (r: Result<Abandoned, String>)
    ensures
        ({
            let p = old(plan).deep_view();
            let c = committed.deep_view();
            let pos = place_of::<ChangeMeta>(p.changes, change_id@);
            let keys = keys_of(p.change_map, change_id@);
            let mine = entries_under(diff_of(c, p), keys);
            match r {
                Ok(a) => {
                    &&& has_named::<ChangeMeta>(p.changes, change_id@)
                    &&& forall|i: int|
                        0 <= i < mine.len() ==> stranded_by(p, #[trigger] mine[i], keys).len() == 0
                    &&& a.deep_view() == (AbandonedView {
                        meta: p.changes[pos],
                        dropped: Seq::new(mine.len(), |i: int| dropped_entry(mine[i])),
                    })
                    &&& final(plan).deep_view() == (ScryModelView {
                        change_map: p.change_map.remove_keys(keys.to_set()),
                        changes: p.changes.remove(pos),
                        ..all_reverted(p, c, mine)
                    })
                },
                Err(e) => {
                    &&& final(plan).deep_view() == p
                    &&& {
                        ||| !has_named::<ChangeMeta>(p.changes, change_id@) && e@
                            == no_open_change(change_id@)
                        ||| has_named::<ChangeMeta>(p.changes, change_id@) && exists|i: int|
                            #[trigger] strands_first(p, mine, keys, i) && e@ == would_strand(
                                change_id@,
                                mine[i].label,
                                stranded_by(p, mine[i], keys),
                            )
                    }
                },
            }
        }),
{
    let ghost p = plan.deep_view();
    let ghost c = committed.deep_view();
    let pos: usize = match find(&plan.changes, change_id) {
        None => {
            return Err(cat3("no open change '", change_id, "'"));
        },
        Some(i) => i,
    };
    let keys = filed_under(&plan.change_map, change_id);
    let d = diff(committed, plan);
    let mine = own_entries(&d.changes, &keys);
    let ghost mv = mine.deep_view();
    let ghost kv = keys.deep_view();
    let mut i: usize = 0;
    while i < mine.len()
        invariant
            i <= mine@.len(),
            mv == mine.deep_view(),
            kv == keys.deep_view(),
            p == plan.deep_view(),
            c == committed.deep_view(),
            kv == keys_of(p.change_map, change_id@),
            mv == entries_under(diff_of(c, p), kv),
            p == old(plan).deep_view(),
            has_named::<ChangeMeta>(p.changes, change_id@),
            forall|j: int| 0 <= j < i ==> stranded_by(p, #[trigger] mv[j], kv).len() == 0,
        decreases mine@.len() - i,
    {
        let ec = at(&mine, i);
        if ec.kind == ElementKind::Node && is_added(ec) {
            let lost = strangers(&plan.nodes, ec.id.as_str(), &keys);
            if lost.len() > 0 {
                let n: usize = lost.len();
                let mut s = cat3(change_id, " adds '", ec.label.as_str());
                s.append("', and ");
                s.append(dec(n as u64).as_str());
                s.append(" under it ");
                s.append(if n == 1 { "is" } else { "are" });
                s.append(" not this change's to drop: ");
                s.append(join(&lost, ", ").as_str());
                s.append(". Refile or fold those first.");
                assert(strands_first(p, mv, kv, i as int));
                return Err(s);
            }
        }
        i += 1;
    }
    let mut dropped: Vec<DroppedEntry> = fresh();
    let ghost reports = Seq::new(mv.len(), |i: int| dropped_entry(mv[i]));
    let mut j: usize = 0;
    assert(mv.take(0) =~= Seq::<ElementChangeView>::empty());
    assert(reports.take(0) =~= Seq::<DroppedEntryView>::empty());
    while j < mine.len()
        invariant
            j <= mine@.len(),
            mv == mine.deep_view(),
            c == committed.deep_view(),
            reports == Seq::new(mv.len(), |i: int| dropped_entry(mv[i])),
            plan.deep_view() == all_reverted(p, c, mv.take(j as int)),
            dropped.deep_view() == reports.take(j as int),
        decreases mine@.len() - j,
    {
        let ec = at(&mine, j);
        assert(mv.take(j + 1).drop_last() =~= mv.take(j as int));
        assert(reports.take(j + 1) =~= reports.take(j as int).push(reports[j as int]));
        revert_one(plan, committed, ec);
        put(
            &mut dropped,
            DroppedEntry {
                key: key_for(ec),
                label: ec.label.clone(),
                what: what_of(ec).to_owned(),
            },
        );
        j += 1;
    }
    proof {
        assert(mv.take(mv.len() as int) =~= mv);
        assert(reports.take(mv.len() as int) =~= reports);
        lemma_reverts_keep_ledger(p, c, mv);
    }
    plan.change_map = plan.change_map.except(&keys);
    let meta = remove_at(&mut plan.changes, pos);
    Ok(Abandoned { meta, dropped })
}

/// Undoing entries leaves the registry and the tags alone.
proof fn lemma_reverts_keep_ledger(
    p: ScryModelView,
    c: ScryModelView,
    mine: Seq<ElementChangeView>,
)
    ensures
        all_reverted(p, c, mine).changes == p.changes,
        all_reverted(p, c, mine).change_map == p.change_map,
    decreases mine.len(),
{
    if mine.len() > 0 {
        lemma_reverts_keep_ledger(p, c, mine.drop_last());
    }
}

// ---- the record -----------------------------------------------------------------

/// A row with nothing but a mark and a text.
pub open spec fn row(marker: Seq<char>, text: Seq<char>) -> EventRowView {
    EventRowView { marker, text, source: None }
}

/// An event of a change, by the agent.
pub open spec fn change_event(
    at: u64,
    driver: Seq<char>,
    cid: Seq<char>,
    title: Option<Seq<char>>,
    rows: Seq<EventRowView>,
) -> HistoryEventView {
    HistoryEventView {
        at,
        by: "agent"@,
        driver,
        kind: EventKind::Change,
        node_id: ""@,
        change_id: Some(cid),
        change_title: title,
        on_behalf_of: None,
        rows,
    }
}

/// An event with its attribution: who, and for whom, as far as named.
pub open spec fn attributed(
    e: HistoryEventView,
    actor: Option<Seq<char>>,
    person: Option<Seq<char>>,
) -> HistoryEventView {
    HistoryEventView {
        by: match named(actor) {
            Some(a) => a,
            None => e.by,
        },
        on_behalf_of: match named(person) {
            Some(a) => Some(a),
            None => e.on_behalf_of,
        },
        ..e
    }
}

fn one_row(marker: &str, text: &str) -> (r: Vec<EventRow>)
    ensures
        r.deep_view() == seq![row(marker@, text@)],
{
    let mut v: Vec<EventRow> = fresh();
    put(&mut v, EventRow::new(marker, text));
    assert(v.deep_view() =~= seq![row(marker@, text@)]);
    v
}

/// The event of a change being opened, stamped at the change's own moment.
pub fn record_opened(
    meta: &ChangeMeta,
    actor: Option<&str>,
    person: Option<&str>,
) -> (r: HistoryEvent)
    ensures
        ({
            let m = meta.deep_view();
            r.deep_view() == attributed(
                change_event(
                    m.created_at,
                    "opened"@,
                    m.id,
                    Some(shown_title(m)),
                    seq![row("+"@, m.rationale)],
                ),
                ref_view(actor),
                ref_view(person),
            )
        }),
{
    HistoryEvent::new(meta.created_at, EventKind::Change, "", "opened").with_change(
        meta.id.as_str(),
    ).with_change_title(title_of(meta)).with_rows(
        one_row("+", meta.rationale.as_str()),
    ).by_actor(actor).for_person(person)
}

/// The rows of an abandonment: the rationale, the reason when one is given, and
/// what was dropped.
pub open spec fn abandon_rows(
    m: ChangeMetaView,
    why: Option<Seq<char>>,
    dropped: Seq<DroppedEntryView>,
) -> Seq<EventRowView>
    decreases dropped.len(),
{
    if dropped.len() == 0 {
        match named(why) {
            Some(w) => seq![row("✓"@, m.rationale), row("✓"@, "why: "@ + w)],
            None => seq![row("✓"@, m.rationale)],
        }
    } else {
        let d = dropped.last();
        abandon_rows(m, why, dropped.drop_last()).push(
            row("−"@, d.label + " ("@ + d.what + ")"@),
        )
    }
}

/// The event of a change being abandoned.
pub fn record_abandoned(
    meta: &ChangeMeta,
    dropped: &Vec<DroppedEntry>,
    why: Option<&str>,
    now: u64,
) -> (r: HistoryEvent)
    ensures
        ({
            let m = meta.deep_view();
            r.deep_view() == change_event(
                now,
                "abandoned"@,
                m.id,
                Some(shown_title(m)),
                abandon_rows(m, ref_view(why), dropped.deep_view()),
            )
        }),
{
    let ghost m = meta.deep_view();
    let ghost dv = dropped.deep_view();
    let mut rows = one_row("✓", meta.rationale.as_str());
    match name_given(why) {
        Some(w) => {
            put(&mut rows, EventRow::new("✓", cat2("why: ", w.as_str()).as_str()));
        },
        None => {},
    }
    let mut i: usize = 0;
    assert(dv.take(0) =~= Seq::<DroppedEntryView>::empty());
    assert(rows.deep_view() =~= abandon_rows(m, ref_view(why), dv.take(0)));
    while i < dropped.len()
        invariant
            i <= dropped@.len(),
            dv == dropped.deep_view(),
            rows.deep_view() == abandon_rows(m, ref_view(why), dv.take(i as int)),
        decreases dropped@.len() - i,
    {
        let d = at(dropped, i);
        assert(dv.take(i + 1).drop_last() =~= dv.take(i as int));
        let mut t = cat3(d.label.as_str(), " (", d.what.as_str());
        t.append(")");
        put(&mut rows, EventRow::new("−", t.as_str()));
        i += 1;
    }
    assert(dv.take(dv.len() as int) =~= dv);
    HistoryEvent::new(now, EventKind::Change, "", "abandoned").with_change(
        meta.id.as_str(),
    ).with_change_title(title_of(meta)).with_rows(rows)
}

/// The event of a sign-off; none for an unsigned change.
pub fn record_signed_off(meta: &ChangeMeta) -> (r: Option<HistoryEvent>)
    ensures
        ({
            let m = meta.deep_view();
            r.deep_view() == (match m.signed_off {
                None => None,
                Some(s) => Some(
                    attributed(
                        change_event(
                            s.at,
                            "signed off"@,
                            m.id,
                            None,
                            seq![row("✓"@, m.rationale)],
                        ),
                        s.by,
                        s.on_behalf_of,
                    ),
                ),
            })
        }),
{
    match &meta.signed_off {
        None => None,
        Some(s) => {
            let by: Option<&str> = match &s.by {
                Some(x) => Some(x.as_str()),
                None => None,
            };
            let person: Option<&str> = match &s.on_behalf_of {
                Some(x) => Some(x.as_str()),
                None => None,
            };
            Some(
                HistoryEvent::new(s.at, EventKind::Change, "", "signed off").with_change(
                    meta.id.as_str(),
                ).with_rows(one_row("✓", meta.rationale.as_str())).by_actor(by).for_person(person),
            )
        },
    }
}

/// The event of a change closing; `driver` says how.
pub fn record_closed(meta: &ChangeMeta, driver: &str, now: u64) -> (r: HistoryEvent)
    ensures
        ({
            let m = meta.deep_view();
            r.deep_view() == change_event(
                now,
                driver@,
                m.id,
                Some(shown_title(m)),
                seq![row("✓"@, m.rationale)],
            )
        }),
{
    HistoryEvent::new(now, EventKind::Change, "", driver).with_change(
        meta.id.as_str(),
    ).with_change_title(title_of(meta)).with_rows(one_row("✓", meta.rationale.as_str()))
}

// ---- laws ---------------------------------------------------------------------

/// The plan does not depend on the ledger: re-filing and closing change nothing
/// about what is pending.
pub proof fn law_plan_ignores_the_ledger(
    c: ScryModelView,
    p: ScryModelView,
    changes: Seq<ChangeMetaView>,
    map: Map<Seq<char>, Seq<char>>,
)
    ensures
        diff_of(c, ScryModelView { changes, change_map: map, ..p }) == diff_of(c, p),
{
}

/// After a clean-up every tag names an entry of the plan.
pub proof fn law_every_tag_is_live(c: ScryModelView, p: ScryModelView, k: Seq<char>)
    requires
        cleaned(c, p).change_map.contains_key(k),
    ensures
        entry_keys(diff_of(c, cleaned(c, p))).contains(k),
        p.change_map.contains_key(k),
        cleaned(c, p).change_map[k] == p.change_map[k],
{
}

proof fn lemma_finishing_all(
    cs: Seq<ChangeMetaView>,
    map: Map<Seq<char>, Seq<char>>,
    valid: Seq<Seq<char>>,
)
    requires
        forall|k: Seq<char>| #[trigger] map.contains_key(k) ==> valid.contains(k),
    ensures
        finishing(cs, map, valid, false) == cs,
        finishing(cs, map, valid, true).len() == 0,
    decreases cs.len(),
{
    if cs.len() > 0 {
        lemma_finishing_all(cs.drop_last(), map, valid);
        assert(cs.drop_last().push(cs.last()) =~= cs);
    }
}

/// A second clean-up finds nothing to do.
pub proof fn law_cleaning_twice(c: ScryModelView, p: ScryModelView)
    ensures
        cleaned(c, cleaned(c, p)) == cleaned(c, p),
        closed_by_cleaning(c, cleaned(c, p)).len() == 0,
{
    let q = cleaned(c, p);
    let valid = entry_keys(diff_of(c, p));
    assert(live_tags(q.change_map, valid) =~= q.change_map);
    assert forall|k: Seq<char>| #[trigger] q.change_map.contains_key(k) implies valid.contains(k) by {
        assert(valid.to_set().contains(k));
    }
    lemma_finishing_all(q.changes, q.change_map, valid);
}

/// A change that carries no tags yet is never closed by a clean-up.
pub proof fn law_untagged_changes_survive(
    c: ScryModelView,
    p: ScryModelView,
    meta: ChangeMetaView,
)
    requires
        p.changes.contains(meta),
        forall|k: Seq<char>|
            #[trigger] p.change_map.contains_key(k) ==> p.change_map[k] != meta.id,
    ensures
        cleaned(c, p).changes.contains(meta),
{
    let valid = entry_keys(diff_of(c, p));
    assert(!finishes(p.change_map, valid, meta.id));
    lemma_finishing_keeps(p.changes, p.change_map, valid, false, meta);
}

proof fn lemma_finishing_keeps(
    cs: Seq<ChangeMetaView>,
    map: Map<Seq<char>, Seq<char>>,
    valid: Seq<Seq<char>>,
    yes: bool,
    meta: ChangeMetaView,
)
    requires
        cs.contains(meta),
        finishes(map, valid, meta.id) == yes,
    ensures
        finishing(cs, map, valid, yes).contains(meta),
    decreases cs.len(),
{
    let d = cs.drop_last();
    let r = finishing(cs, map, valid, yes);
    if cs.last() == meta {
        assert(r[r.len() - 1] == meta);
    } else {
        let i = choose|i: int| 0 <= i < cs.len() && cs[i] == meta;
        assert(d[i] == meta);
        lemma_finishing_keeps(d, map, valid, yes, meta);
        let f = finishing(d, map, valid, yes);
        let j = choose|j: int| 0 <= j < f.len() && f[j] == meta;
        assert(r[j] == meta);
    }
}

proof fn lemma_dead_len(ks: Seq<Seq<char>>, valid: Seq<Seq<char>>)
    ensures
        dead(ks, valid).len() <= ks.len(),
        dead(ks, valid).len() == ks.len() <==> forall|i: int|
            0 <= i < ks.len() ==> !valid.contains(#[trigger] ks[i]),
    decreases ks.len(),
{
    if ks.len() > 0 {
        let d = ks.drop_last();
        lemma_dead_len(d, valid);
        if dead(ks, valid).len() == ks.len() {
            assert forall|i: int| 0 <= i < ks.len() implies !valid.contains(#[trigger] ks[i]) by {
                if i < d.len() {
                    assert(!valid.contains(d[i]));
                }
            }
        }
        if forall|i: int| 0 <= i < ks.len() ==> !valid.contains(#[trigger] ks[i]) {
            assert(!valid.contains(ks[ks.len() - 1]));
            assert forall|i: int| 0 <= i < d.len() implies !valid.contains(#[trigger] d[i]) by {
                assert(!valid.contains(ks[i]));
            }
        }
    }
}

/// The clean-up closes an open change exactly when it carries tags and all of
/// them are dead.
pub proof fn law_abandonment_is_foreseen(c: ScryModelView, p: ScryModelView, cid: Seq<char>)
    requires
        p.change_map.dom().finite(),
    ensures
        finishes(p.change_map, entry_keys(diff_of(c, p)), cid) <==> {
            let tags = keys_of(p.change_map, cid);
            tags.len() > 0 && dead_of(c, p, cid).len() == tags.len()
        },
{
    let m = p.change_map;
    let valid = entry_keys(diff_of(c, p));
    let tags = keys_of(m, cid);
    crate::text::lemma_ascending_of(m.dom());
    let ks = ascending(m.dom());
    lemma_dead_len(tags, valid);
    assert forall|k: Seq<char>| #[trigger] tags.contains(k) <==> (m.contains_key(k) && m[k]
        == cid) by {
        crate::signoff::lemma_filed(ks, m, cid, k);
        assert(ks.to_set().contains(k) <==> m.contains_key(k));
    }
    if finishes(m, valid, cid) {
        let k = choose|k: Seq<char>|
            #[trigger] m.contains_key(k) && m[k] == cid && !valid.contains(k);
        assert(tags.contains(k));
        assert forall|i: int| 0 <= i < tags.len() implies !valid.contains(#[trigger] tags[i]) by {
            assert(tags.contains(tags[i]));
        }
    }
    if tags.len() > 0 && dead_of(c, p, cid).len() == tags.len() {
        assert(tags.contains(tags[0]));
        assert(m.contains_key(tags[0]));
        assert forall|k: Seq<char>| #[trigger] m.contains_key(k) && m[k] == cid implies !valid.contains(
            k,
        ) by {
            assert(tags.contains(k));
        }
    }
}

/// The last writer wins: what is tagged belongs to the change, and nothing else
/// is re-filed.
pub proof fn law_last_tag_wins(
    map: Map<Seq<char>, Seq<char>>,
    keys: Seq<Seq<char>>,
    cid: Seq<char>,
    k: Seq<char>,
)
    ensures
        lookup(tagged(map, keys, cid), k) == (if keys.contains(k) {
            Some(cid)
        } else {
            lookup(map, k)
        }),
    decreases keys.len(),
{
    if keys.len() > 0 {
        let d = keys.drop_last();
        law_last_tag_wins(map, d, cid, k);
        if d.contains(k) {
            let i = choose|i: int| 0 <= i < d.len() && d[i] == k;
            assert(keys[i] == k);
        }
        if keys.contains(k) && k != keys.last() {
            let i = choose|i: int| 0 <= i < keys.len() && keys[i] == k;
            assert(d[i] == k);
        }
        assert(keys[keys.len() - 1] == keys.last());
    }
}

/// An element is foreign to its host only when it is filed, and not where the
/// host is filed.
pub proof fn law_own_work_rides_along(
    map: Map<Seq<char>, Seq<char>>,
    host: Seq<char>,
    elem: Seq<char>,
)
    ensures
        !map.contains_key(elem) ==> !foreign(map, host, elem),
        map.contains_key(host) && map.contains_key(elem) && map[host] == map[elem] ==> !foreign(
            map,
            host,
            elem,
        ),
{
}

/// Is every pending element that a target means already where it is sent?
pub open spec fn settled(
    planned: ScryModelView,
    committed: ScryModelView,
    map: Map<Seq<char>, Seq<char>>,
    target: Seq<char>,
    pend: Seq<ElementChangeView>,
    to: Option<Seq<char>>,
) -> bool {
    forall|i: int|
        0 <= i < pend.len() ==> meant(
            planned,
            committed,
            target,
            #[trigger] pend[i],
            lookup(map, key_of(pend[i])),
        ) ==> lookup(map, key_of(pend[i])) == to
}

proof fn lemma_settled_stays(
    planned: ScryModelView,
    committed: ScryModelView,
    map: Map<Seq<char>, Seq<char>>,
    target: Seq<char>,
    pend: Seq<ElementChangeView>,
    to: Option<Seq<char>>,
    other: Seq<char>,
    run: Seq<ElementChangeView>,
)
    requires
        settled(planned, committed, map, target, pend, to),
    ensures
        settled(
            planned,
            committed,
            refiled(planned, committed, map, other, run, to),
            target,
            pend,
            to,
        ),
    decreases run.len(),
{
    if run.len() > 0 {
        let d = run.drop_last();
        lemma_settled_stays(planned, committed, map, target, pend, to, other, d);
        let before = refiled(planned, committed, map, other, d, to);
        let after = refiled(planned, committed, map, other, run, to);
        assert forall|i: int| 0 <= i < pend.len() && meant(
            planned,
            committed,
            target,
            #[trigger] pend[i],
            lookup(after, key_of(pend[i])),
        ) implies lookup(after, key_of(pend[i])) == to by {
            if after != before && key_of(pend[i]) == key_of(run.last()) {
                assert(lookup(after, key_of(pend[i])) == to);
            } else {
                assert(lookup(after, key_of(pend[i])) == lookup(before, key_of(pend[i])));
            }
        }
    }
}

proof fn lemma_run_settles(
    planned: ScryModelView,
    committed: ScryModelView,
    map: Map<Seq<char>, Seq<char>>,
    target: Seq<char>,
    pend: Seq<ElementChangeView>,
    to: Option<Seq<char>>,
)
    ensures
        settled(
            planned,
            committed,
            refiled(planned, committed, map, target, pend, to),
            target,
            pend,
            to,
        ),
    decreases pend.len(),
{
    if pend.len() > 0 {
        let d = pend.drop_last();
        lemma_run_settles(planned, committed, map, target, d, to);
        let before = refiled(planned, committed, map, target, d, to);
        let after = refiled(planned, committed, map, target, pend, to);
        assert forall|i: int| 0 <= i < pend.len() && meant(
            planned,
            committed,
            target,
            #[trigger] pend[i],
            lookup(after, key_of(pend[i])),
        ) implies lookup(after, key_of(pend[i])) == to by {
            if after != before && key_of(pend[i]) == key_of(pend.last()) {
                assert(lookup(after, key_of(pend[i])) == to);
            } else {
                assert(lookup(after, key_of(pend[i])) == lookup(before, key_of(pend[i])));
                if i < d.len() {
                    assert(d[i] == pend[i]);
                }
            }
        }
    }
}

proof fn lemma_settled_moves_nothing(
    planned: ScryModelView,
    committed: ScryModelView,
    map: Map<Seq<char>, Seq<char>>,
    target: Seq<char>,
    pend: Seq<ElementChangeView>,
    to: Option<Seq<char>>,
)
    requires
        settled(planned, committed, map, target, pend, to),
    ensures
        refiled(planned, committed, map, target, pend, to) == map,
        moves(planned, committed, map, target, pend, to).len() == 0,
    decreases pend.len(),
{
    if pend.len() > 0 {
        let d = pend.drop_last();
        assert forall|i: int| 0 <= i < d.len() && meant(
            planned,
            committed,
            target,
            #[trigger] d[i],
            lookup(map, key_of(d[i])),
        ) implies lookup(map, key_of(d[i])) == to by {
            assert(d[i] == pend[i]);
        }
        lemma_settled_moves_nothing(planned, committed, map, target, d, to);
        assert(pend[pend.len() - 1] == pend.last());
    }
}

proof fn lemma_all_settled(
    planned: ScryModelView,
    committed: ScryModelView,
    targets: Seq<Seq<char>>,
    pend: Seq<ElementChangeView>,
    to: Option<Seq<char>>,
)
    ensures
        forall|i: int|
            0 <= i < targets.len() ==> settled(
                planned,
                committed,
                refiled_all(planned, committed, targets, pend, to),
                #[trigger] targets[i],
                pend,
                to,
            ),
    decreases targets.len(),
{
    if targets.len() > 0 {
        let d = targets.drop_last();
        lemma_all_settled(planned, committed, d, pend, to);
        let before = refiled_all(planned, committed, d, pend, to);
        assert forall|i: int| 0 <= i < targets.len() implies settled(
            planned,
            committed,
            refiled_all(planned, committed, targets, pend, to),
            #[trigger] targets[i],
            pend,
            to,
        ) by {
            if i < d.len() {
                assert(d[i] == targets[i]);
                lemma_settled_stays(
                    planned,
                    committed,
                    before,
                    targets[i],
                    pend,
                    to,
                    targets.last(),
                    pend,
                );
            } else {
                lemma_run_settles(planned, committed, before, targets.last(), pend, to);
            }
        }
    }
}

proof fn lemma_settled_run(
    planned: ScryModelView,
    committed: ScryModelView,
    targets: Seq<Seq<char>>,
    pend: Seq<ElementChangeView>,
    to: Option<Seq<char>>,
)
    requires
        forall|i: int|
            0 <= i < targets.len() ==> settled(
                planned,
                committed,
                planned.change_map,
                #[trigger] targets[i],
                pend,
                to,
            ),
    ensures
        refiled_all(planned, committed, targets, pend, to) == planned.change_map,
        retagged(planned, committed, targets, pend, to).moved.len() == 0,
    decreases targets.len(),
{
    if targets.len() > 0 {
        let d = targets.drop_last();
        assert forall|i: int| 0 <= i < d.len() implies settled(
            planned,
            committed,
            planned.change_map,
            #[trigger] d[i],
            pend,
            to,
        ) by {
            assert(d[i] == targets[i]);
        }
        lemma_settled_run(planned, committed, d, pend, to);
        assert(targets[targets.len() - 1] == targets.last());
        lemma_settled_moves_nothing(
            planned,
            committed,
            planned.change_map,
            targets.last(),
            pend,
            to,
        );
    }
}

proof fn lemma_refiling_ignores_map(
    p: ScryModelView,
    q: ScryModelView,
    c: ScryModelView,
    map: Map<Seq<char>, Seq<char>>,
    target: Seq<char>,
    pend: Seq<ElementChangeView>,
    to: Option<Seq<char>>,
)
    requires
        p.links == q.links,
        settled(p, c, map, target, pend, to),
    ensures
        settled(q, c, map, target, pend, to),
{
    assert forall|i: int| 0 <= i < pend.len() && meant(
        q,
        c,
        target,
        #[trigger] pend[i],
        lookup(map, key_of(pend[i])),
    ) implies lookup(map, key_of(pend[i])) == to by {
        assert(carrier(q, c, pend[i]) == carrier(p, c, pend[i]));
    }
}

proof fn lemma_same_queue(p: ScryModelView, q: ScryModelView, cs: Seq<ElementChangeView>)
    requires
        p.nodes == q.nodes,
        p.groups == q.groups,
    ensures
        not_vagrant(p, cs) == not_vagrant(q, cs),
    decreases cs.len(),
{
    if cs.len() > 0 {
        lemma_same_queue(p, q, cs.drop_last());
    }
}

/// Re-filing is idempotent: doing it again moves nothing.
pub proof fn law_refiling_again_moves_nothing(
    p: ScryModelView,
    c: ScryModelView,
    targets: Seq<Seq<char>>,
    to: Option<Seq<char>>,
)
    ensures
        ({
            let pend = not_vagrant(p, diff_of(c, p));
            let q = ScryModelView { change_map: refiled_all(p, c, targets, pend, to), ..p };
            let pend2 = not_vagrant(q, diff_of(c, q));
            &&& retagged(q, c, targets, pend2, to).moved.len() == 0
            &&& refiled_all(q, c, targets, pend2, to) == q.change_map
        }),
{
    let pend = not_vagrant(p, diff_of(c, p));
    let q = ScryModelView { change_map: refiled_all(p, c, targets, pend, to), ..p };
    lemma_same_queue(p, q, diff_of(c, p));
    lemma_all_settled(p, c, targets, pend, to);
    assert forall|i: int| 0 <= i < targets.len() implies settled(
        q,
        c,
        q.change_map,
        #[trigger] targets[i],
        pend,
        to,
    ) by {
        lemma_refiling_ignores_map(p, q, c, q.change_map, targets[i], pend, to);
    }
    lemma_settled_run(q, c, targets, pend, to);
}

/// An abandoned change leaves no tag behind, and no other change loses one.
pub proof fn law_abandoning_takes_only_its_own_tags(
    map: Map<Seq<char>, Seq<char>>,
    cid: Seq<char>,
    k: Seq<char>,
)
    requires
        map.dom().finite(),
    ensures
        lookup(map.remove_keys(keys_of(map, cid).to_set()), k) == (if lookup(map, k) == Some(cid) {
            None
        } else {
            lookup(map, k)
        }),
{
    crate::text::lemma_ascending_of(map.dom());
    let ks = ascending(map.dom());
    crate::signoff::lemma_filed(ks, map, cid, k);
    assert(ks.to_set().contains(k) <==> map.contains_key(k));
    assert(keys_of(map, cid).to_set().contains(k) <==> keys_of(map, cid).contains(k));
}

} // verus!
