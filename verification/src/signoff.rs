//! Sign-offs: what the plan held when somebody approved it, and how it stands
//! against that now.

use crate::changes::{
    parse_key, parsed, ChangeMeta, ChangeMetaView, Classification, SignOff, SignOffView,
    SignedEntry, SignedEntryView,
};
use crate::diff::{flag_name, lookup, ref_view, ElementKind};
use crate::history::{name_given, named};
use crate::json::{json_list, json_text, list_quoted, quoted};
use crate::model::{
    claim_of, find_responsibility, Group, GroupView, Kind, Link, LinkView, Node, NodeView,
    Responsibility, ResponsibilityView, SchemaProperty, ScryModel, ScryModelView,
};
use crate::modelled::{at, fresh, is_on, or_empty, put, set_at, text_or_empty, Modelled};
use crate::named::{find, first, has_named, place_of, lemma_place_of};
use crate::strmap::StrMap;
use crate::text::{
    ascending, cat3, hex, hex_digits, holds, join, joined, same_text, sort, sorted_list,
};
use vstd::prelude::*;
use vstd::string::*;
use vstd::utf8::encode_utf8;

verus! {

// ---- the digest -----------------------------------------------------------------

/// FNV-1a, 64 bits.
pub open spec fn fnv(bytes: Seq<u8>) -> u64
    decreases bytes.len(),
{
    if bytes.len() == 0 {
        0xcbf2_9ce4_8422_2325
    } else {
        (fnv(bytes.drop_last()) ^ (bytes.last() as u64)).wrapping_mul(0x0000_0100_0000_01b3)
    }
}

/// FNV-1a, 64 bits, as sixteen hexadecimal digits.
pub fn fnv1a64(bytes: &[u8]) -> (r: String)
    ensures
        r@ == hex_digits(fnv(bytes@) as nat, 16),
{
    let mut h: u64 = 0xcbf2_9ce4_8422_2325;
    let mut i: usize = 0;
    assert(bytes@.take(0) =~= Seq::<u8>::empty());
    while i < bytes.len()
        invariant
            i <= bytes@.len(),
            h == fnv(bytes@.take(i as int)),
        decreases bytes@.len() - i,
    {
        assert(bytes@.take(i + 1).drop_last() =~= bytes@.take(i as int));
        h = (h ^ (bytes[i] as u64)).wrapping_mul(0x0000_0100_0000_01b3);
        i += 1;
    }
    assert(bytes@.take(bytes@.len() as int) =~= bytes@);
    hex(h, 16)
}

/// The digest of a text.
pub open spec fn digest(s: Seq<char>) -> Seq<char> {
    hex_digits(fnv(encode_utf8(s)) as nat, 16)
}

/// The digest of a text.
pub fn digest_of(s: &str) -> (r: String)
    ensures
        r@ == digest(s@),
{
    fnv1a64(s.as_bytes())
}

// ---- the content of an entry ------------------------------------------------------

/// The name of a kind as its constructor.
pub open spec fn kind_word(k: Kind) -> Seq<char> {
    match k {
        Kind::Person => "Person"@,
        Kind::System => "System"@,
        Kind::Container => "Container"@,
        Kind::Component => "Component"@,
        Kind::Symbol => "Symbol"@,
    }
}

/// The name of a kind as its constructor.
pub fn kind_words(k: Kind) -> (r: &'static str)
    ensures
        r@ == kind_word(k),
{
    match k {
        Kind::Person => "Person",
        Kind::System => "System",
        Kind::Container => "Container",
        Kind::Component => "Component",
        Kind::Symbol => "Symbol",
    }
}

/// The truth-bearing text of a node.
pub open spec fn node_text(n: NodeView) -> Seq<char> {
    "node|"@ + kind_word(n.kind) + "|"@ + n.name + "|"@ + or_empty(n.parent_id) + "|"@ + or_empty(
        n.description,
    ) + "|"@ + or_empty(n.technology) + "|"@ + flag_name(n.external)
}

/// The truth-bearing text of a link.
pub open spec fn link_text(l: LinkView) -> Seq<char> {
    "link|"@ + l.src + "|"@ + l.dst + "|"@ + l.label + "|"@ + or_empty(l.method)
}

/// The truth-bearing text of a group.
pub open spec fn group_text(g: GroupView) -> Seq<char> {
    "group|"@ + g.name + "|"@ + or_empty(g.description) + "|"@ + joined(
        sorted_list(g.member_ids),
        ","@,
    ) + "|"@ + or_empty(g.parent_group_id) + "|"@ + or_empty(g.parent_node_id)
}

/// Has a claim a name or citations beside its statement?
pub open spec fn annotated(c: ResponsibilityView) -> bool {
    or_empty(c.title).len() > 0 || c.cites.len() > 0
}

/// The truth-bearing text of a claim on its host: the statement, and behind it the name
/// and the citations where it has any.
pub open spec fn claim_text(host: Seq<char>, c: ResponsibilityView) -> Seq<char> {
    if annotated(c) {
        "claim|"@ + host + "|"@ + c.statement + "\u{1}"@ + json_text(or_empty(c.title))
            + json_list(c.cites)
    } else {
        "resp|"@ + host + "|"@ + c.statement
    }
}

fn text_of_claim(host: &str, c: &Responsibility) -> (r: String)
    ensures
        r@ == claim_text(host@, c.deep_view()),
{
    let title = text_or_empty(&c.title);
    proof {
        reveal_strlit("");
        assert(""@ =~= Seq::<char>::empty());
        assert(title@.len() == 0 ==> title@ =~= Seq::<char>::empty());
    }
    if same_text(title.as_str(), "") && c.cites.len() == 0 {
        let mut t = cat3("resp|", host, "|");
        t.append(c.statement.as_str());
        return t;
    }
    let mut t = cat3("claim|", host, "|");
    t.append(c.statement.as_str());
    t.append("\u{1}");
    t.append(quoted(title.as_str()).as_str());
    t.append(list_quoted(&c.cites).as_str());
    t
}

/// An entry with this text and nothing else to remember.
pub open spec fn plain_entry(text: Seq<char>) -> SignedEntryView {
    SignedEntryView { hash: digest(text), statement: None, host: None }
}

/// The signed content of the entry that `key` names; none when it names nothing
/// in the plan.
pub open spec fn entry(m: ScryModelView, key: Seq<char>) -> Option<SignedEntryView> {
    match parsed(key) {
        None => None,
        Some((kind, owner, id)) => match kind {
            ElementKind::Responsibility => match claim_of(m, id) {
                None => None,
                Some((host, c)) => Some(
                    SignedEntryView {
                        hash: digest(claim_text(host, c)),
                        statement: Some(c.statement),
                        host: Some(host),
                    },
                ),
            },
            ElementKind::Property => match owner {
                None => None,
                Some(o) => match first::<Node>(m.nodes, o) {
                    None => None,
                    Some(n) => match first::<SchemaProperty>(n.properties, id) {
                        None => None,
                        Some(p) => Some(
                            SignedEntryView {
                                hash: digest("prop|"@ + o + "|"@ + p.label + "|"@ + p.description),
                                statement: None,
                                host: Some(o),
                            },
                        ),
                    },
                },
            },
            ElementKind::Node => match first::<Node>(m.nodes, id) {
                None => None,
                Some(n) => Some(plain_entry(node_text(n))),
            },
            ElementKind::Link => match first::<Link>(m.links, id) {
                None => None,
                Some(l) => Some(plain_entry(link_text(l))),
            },
            ElementKind::Group => match first::<Group>(m.groups, id) {
                None => None,
                Some(g) => Some(plain_entry(group_text(g))),
            },
        },
    }
}

fn plain(text: &str) -> (r: Option<SignedEntry>)
    ensures
        r.deep_view() == Some(plain_entry(text@)),
{
    Some(SignedEntry { hash: digest_of(text), statement: None, host: None })
}

/// The signed content of a plan entry: a digest of its truth-bearing fields only,
/// so that tags, positions, icons and directives never read as an amendment.
pub fn entry_hash(model: &ScryModel, key: &str) -> (r: Option<SignedEntry>)
    ensures
        r.deep_view() == entry(model.deep_view(), key@),
{
    match parse_key(key) {
        None => None,
        Some((kind, owner, id)) => match kind {
            ElementKind::Responsibility => match find_responsibility(model, id.as_str()) {
                None => None,
                Some((host, c)) => {
                    let t = text_of_claim(host.as_str(), &c);
                    Some(
                        SignedEntry {
                            hash: digest_of(t.as_str()),
                            statement: Some(c.statement.clone()),
                            host: Some(host),
                        },
                    )
                },
            },
            ElementKind::Property => match owner {
                None => None,
                Some(o) => match find(&model.nodes, o.as_str()) {
                    None => None,
                    Some(i) => {
                        let n = at(&model.nodes, i);
                        match find(&n.properties, id.as_str()) {
                            None => None,
                            Some(k) => {
                                let p = at(&n.properties, k);
                                let mut t = cat3("prop|", o.as_str(), "|");
                                t.append(p.label.as_str());
                                t.append("|");
                                t.append(p.description.as_str());
                                Some(
                                    SignedEntry {
                                        hash: digest_of(t.as_str()),
                                        statement: None,
                                        host: Some(o),
                                    },
                                )
                            },
                        }
                    },
                },
            },
            ElementKind::Node => match find(&model.nodes, id.as_str()) {
                None => None,
                Some(i) => {
                    let n = at(&model.nodes, i);
                    let mut t = cat3("node|", kind_words(n.kind), "|");
                    t.append(n.name.as_str());
                    t.append("|");
                    t.append(text_or_empty(&n.parent_id).as_str());
                    t.append("|");
                    t.append(text_or_empty(&n.description).as_str());
                    t.append("|");
                    t.append(text_or_empty(&n.technology).as_str());
                    t.append("|");
                    t.append(if is_on(&n.external) { "true" } else { "false" });
                    plain(t.as_str())
                },
            },
            ElementKind::Link => match find(&model.links, id.as_str()) {
                None => None,
                Some(i) => {
                    let l = at(&model.links, i);
                    let mut t = cat3("link|", l.src.as_str(), "|");
                    t.append(l.dst.as_str());
                    t.append("|");
                    t.append(l.label.as_str());
                    t.append("|");
                    t.append(text_or_empty(&l.method).as_str());
                    plain(t.as_str())
                },
            },
            ElementKind::Group => match find(&model.groups, id.as_str()) {
                None => None,
                Some(i) => {
                    let g = at(&model.groups, i);
                    let members = sort(&g.member_ids);
                    let mut t = cat3("group|", g.name.as_str(), "|");
                    t.append(text_or_empty(&g.description).as_str());
                    t.append("|");
                    t.append(join(&members, ",").as_str());
                    t.append("|");
                    t.append(text_or_empty(&g.parent_group_id).as_str());
                    t.append("|");
                    t.append(text_or_empty(&g.parent_node_id).as_str());
                    plain(t.as_str())
                },
            },
        },
    }
}

/// What a snapshot stores for a key: the live content, or the mark of a pending
/// deletion.
pub open spec fn entry_or_deleted(m: ScryModelView, key: Seq<char>) -> SignedEntryView {
    match entry(m, key) {
        Some(e) => e,
        None => SignedEntryView { hash: "deleted"@, statement: None, host: None },
    }
}

/// What a snapshot stores for a key.
pub fn signed_entry(model: &ScryModel, key: &str) -> (r: SignedEntry)
    ensures
        r.deep_view() == entry_or_deleted(model.deep_view(), key@),
{
    match entry_hash(model, key) {
        Some(e) => e,
        None => SignedEntry { hash: "deleted".to_owned(), statement: None, host: None },
    }
}

// ---- signing --------------------------------------------------------------------

/// The snapshot of a change: every key filed under it, with its content now.
pub open spec fn snapshot(m: ScryModelView, cid: Seq<char>) -> Map<Seq<char>, SignedEntryView> {
    Map::new(
        |k: Seq<char>| m.change_map.contains_key(k) && m.change_map[k] == cid,
        |k: Seq<char>| entry_or_deleted(m, k),
    )
}

spec fn snapshot_upto(m: ScryModelView, cid: Seq<char>, ks: Seq<Seq<char>>, n: int) -> Map<
    Seq<char>,
    SignedEntryView,
> {
    Map::new(
        |k: Seq<char>|
            m.change_map.contains_key(k) && m.change_map[k] == cid && exists|j: int|
                0 <= j < n && j < ks.len() && #[trigger] ks[j] == k,
        |k: Seq<char>| entry_or_deleted(m, k),
    )
}

fn take_snapshot(model: &ScryModel, cid: &str) -> (r: StrMap<SignedEntry>)
    ensures
        r.deep_view() == snapshot(model.deep_view(), cid@),
{
    let ghost m = model.deep_view();
    let mut out: StrMap<SignedEntry> = StrMap::new();
    let n: usize = model.change_map.len();
    let ghost ks = ascending(m.change_map.dom());
    let mut i: usize = 0;
    assert(out.deep_view() =~= snapshot_upto(m, cid@, ks, 0));
    while i < n
        invariant
            i <= n,
            n == ks.len(),
            m == model.deep_view(),
            ks == ascending(m.change_map.dom()),
            out.deep_view() == snapshot_upto(m, cid@, ks, i as int),
        decreases n - i,
    {
        let k = model.change_map.key_at(i);
        let v = model.change_map.value_at(i);
        if same_text(v.as_str(), cid) {
            let e = signed_entry(model, k.as_str());
            out.insert(k.clone(), e);
        }
        assert(out.deep_view() =~= snapshot_upto(m, cid@, ks, i + 1));
        i += 1;
    }
    proof {
        assert forall|k: Seq<char>| m.change_map.contains_key(k) implies exists|j: int|
            0 <= j < n && j < ks.len() && #[trigger] ks[j] == k by {
            assert(ks.to_set().contains(k));
        }
        assert(out.deep_view() =~= snapshot(m, cid@));
    }
    out
}

/// A signature over `entries`. A named signer owns it whole, proxy or not, and
/// has just looked; an unnamed re-stamp keeps who signed, for whom, and whether
/// the signature had gone stale.
pub open spec fn signature(
    prev: Option<SignOffView>,
    entries: Map<Seq<char>, SignedEntryView>,
    now: u64,
    actor: Option<Seq<char>>,
    person: Option<Seq<char>>,
) -> SignOffView {
    match named(actor) {
        Some(by) => SignOffView {
            at: now,
            by: Some(by),
            on_behalf_of: named(person),
            staled_by: None,
            entries,
        },
        None => match prev {
            Some(p) => SignOffView { at: now, entries, ..p },
            None => SignOffView {
                at: now,
                by: None,
                on_behalf_of: None,
                staled_by: None,
                entries,
            },
        },
    }
}

/// The model with the change `cid` signed off.
pub open spec fn signed(
    m: ScryModelView,
    cid: Seq<char>,
    now: u64,
    actor: Option<Seq<char>>,
    person: Option<Seq<char>>,
) -> ScryModelView {
    let i = place_of::<ChangeMeta>(m.changes, cid);
    let c = m.changes[i];
    ScryModelView {
        changes: m.changes.update(
            i,
            ChangeMetaView {
                signed_off: Some(signature(c.signed_off, snapshot(m, cid), now, actor, person)),
                ..c
            },
        ),
        ..m
    }
}

/// What is said of a change that is not open.
pub open spec fn no_open_change(cid: Seq<char>) -> Seq<char> {
    "no open change '"@ + cid + "'"@
}

/// Signs a change off for a person, by an actor: every entry filed under it is
/// remembered as it stands. Returns how many there are.
pub fn sign_off_for(
    model: &mut ScryModel,
    change_id: &str,
    now: u64,
    actor: Option<&str>,
    on_behalf_of: Option<&str>,
) -> (r: Result<usize, String>)
    ensures
        match r {
            Ok(n) => {
                &&& has_named::<ChangeMeta>(old(model).deep_view().changes, change_id@)
                &&& n == snapshot(old(model).deep_view(), change_id@).len()
                &&& final(model).deep_view() == signed(
                    old(model).deep_view(),
                    change_id@,
                    now,
                    ref_view(actor),
                    ref_view(on_behalf_of),
                )
            },
            Err(e) => {
                &&& !has_named::<ChangeMeta>(old(model).deep_view().changes, change_id@)
                &&& e@ == no_open_change(change_id@)
                &&& final(model).deep_view() == old(model).deep_view()
            },
        },
{
    let ghost m = model.deep_view();
    match find(&model.changes, change_id) {
        None => Err(cat3("no open change '", change_id, "'")),
        Some(i) => {
            let entries = take_snapshot(model, change_id);
            let n: usize = entries.len();
            let meta = at(&model.changes, i).dup();
            let snap = match name_given(actor) {
                Some(by) => SignOff {
                    at: now,
                    by: Some(by),
                    on_behalf_of: name_given(on_behalf_of),
                    staled_by: None,
                    entries,
                },
                None => match &meta.signed_off {
                    Some(p) => SignOff {
                        at: now,
                        by: p.by.dup(),
                        on_behalf_of: p.on_behalf_of.dup(),
                        staled_by: p.staled_by.dup(),
                        entries,
                    },
                    None => SignOff {
                        at: now,
                        by: None,
                        on_behalf_of: None,
                        staled_by: None,
                        entries,
                    },
                },
            };
            let next = ChangeMeta {
                id: meta.id,
                rationale: meta.rationale,
                title: meta.title,
                created_at: meta.created_at,
                signed_off: Some(snap),
            };
            set_at(&mut model.changes, i, next);
            assert(model.deep_view() =~= signed(
                m,
                change_id@,
                now,
                ref_view(actor),
                ref_view(on_behalf_of),
            ));
            Ok(n)
        },
    }
}

/// [`sign_off_for`] without a person.
pub fn sign_off_as(
    model: &mut ScryModel,
    change_id: &str,
    now: u64,
    actor: Option<&str>,
) -> (r: Result<usize, String>)
    ensures
        match r {
            Ok(n) => {
                &&& has_named::<ChangeMeta>(old(model).deep_view().changes, change_id@)
                &&& n == snapshot(old(model).deep_view(), change_id@).len()
                &&& final(model).deep_view() == signed(
                    old(model).deep_view(),
                    change_id@,
                    now,
                    ref_view(actor),
                    None,
                )
            },
            Err(e) => {
                &&& !has_named::<ChangeMeta>(old(model).deep_view().changes, change_id@)
                &&& e@ == no_open_change(change_id@)
                &&& final(model).deep_view() == old(model).deep_view()
            },
        },
{
    sign_off_for(model, change_id, now, actor, None)
}

/// [`sign_off_as`] by nobody in particular.
pub fn sign_off(model: &mut ScryModel, change_id: &str, now: u64) -> (r: Result<usize, String>)
    ensures
        match r {
            Ok(n) => {
                &&& has_named::<ChangeMeta>(old(model).deep_view().changes, change_id@)
                &&& n == snapshot(old(model).deep_view(), change_id@).len()
                &&& final(model).deep_view() == signed(
                    old(model).deep_view(),
                    change_id@,
                    now,
                    None,
                    None,
                )
            },
            Err(e) => {
                &&& !has_named::<ChangeMeta>(old(model).deep_view().changes, change_id@)
                &&& e@ == no_open_change(change_id@)
                &&& final(model).deep_view() == old(model).deep_view()
            },
        },
{
    sign_off_as(model, change_id, now, None)
}

// ---- re-stamping ------------------------------------------------------------------

/// The signed changes in order: the id, and who signed.
pub open spec fn signers(cs: Seq<ChangeMetaView>) -> Seq<(Seq<char>, Option<Seq<char>>)>
    decreases cs.len(),
{
    if cs.len() == 0 {
        Seq::empty()
    } else {
        let c = cs.last();
        match c.signed_off {
            Some(s) => signers(cs.drop_last()).push((c.id, s.by)),
            None => signers(cs.drop_last()),
        }
    }
}

fn signed_changes(cs: &Vec<ChangeMeta>) -> (r: Vec<(String, Option<String>)>)
    ensures
        r.deep_view() == signers(cs.deep_view()),
{
    let ghost vs = cs.deep_view();
    let mut out: Vec<(String, Option<String>)> = fresh();
    let mut i: usize = 0;
    assert(vs.take(0) =~= Seq::<ChangeMetaView>::empty());
    while i < cs.len()
        invariant
            i <= cs@.len(),
            vs == cs.deep_view(),
            out.deep_view() == signers(vs.take(i as int)),
        decreases cs@.len() - i,
    {
        let c = at(cs, i);
        assert(vs.take(i + 1).drop_last() =~= vs.take(i as int));
        match &c.signed_off {
            Some(s) => {
                put(&mut out, (c.id.clone(), s.by.dup()));
            },
            None => {},
        }
        i += 1;
    }
    assert(vs.take(vs.len() as int) =~= vs);
    out
}

/// The model with the open change `cid` signed off by `actor`; as it is when no
/// such change is open.
pub open spec fn signed_if_open(
    m: ScryModelView,
    cid: Seq<char>,
    now: u64,
    actor: Option<Seq<char>>,
) -> ScryModelView {
    if has_named::<ChangeMeta>(m.changes, cid) {
        signed(m, cid, now, actor, None)
    } else {
        m
    }
}

/// The model after re-stamping these changes in order.
pub open spec fn restamped(
    m: ScryModelView,
    list: Seq<(Seq<char>, Option<Seq<char>>)>,
    now: u64,
) -> ScryModelView
    decreases list.len(),
{
    if list.len() == 0 {
        m
    } else {
        signed_if_open(restamped(m, list.drop_last(), now), list.last().0, now, None)
    }
}

/// Re-stamps every signed change against the plan as it stands: the author's own
/// edits are intent. Returns how many there are.
pub fn restamp_signoffs(model: &mut ScryModel, now: u64) -> (r: usize)
    ensures
        r == signers(old(model).deep_view().changes).len(),
        final(model).deep_view() == restamped(
            old(model).deep_view(),
            signers(old(model).deep_view().changes),
            now,
        ),
{
    let ghost m0 = model.deep_view();
    let list = signed_changes(&model.changes);
    let ghost lv = list.deep_view();
    let mut i: usize = 0;
    assert(lv.take(0) =~= Seq::<(Seq<char>, Option<Seq<char>>)>::empty());
    while i < list.len()
        invariant
            i <= list@.len(),
            lv == list.deep_view(),
            model.deep_view() == restamped(m0, lv.take(i as int), now),
        decreases list@.len() - i,
    {
        let x = at(&list, i);
        assert(lv.take(i + 1).drop_last() =~= lv.take(i as int));
        let _r = sign_off(model, x.0.as_str(), now);
        i += 1;
    }
    assert(lv.take(lv.len() as int) =~= lv);
    list.len()
}

/// Do the two names stand for different hands?
pub open spec fn another_hand(writer: Option<Seq<char>>, signer: Option<Seq<char>>) -> bool {
    named(writer) is Some && named(signer) is Some && named(writer)->0 != named(signer)->0
}

/// The model with the signature of `cid` marked stale by `writer`.
pub open spec fn staled(m: ScryModelView, cid: Seq<char>, writer: Option<Seq<char>>) -> ScryModelView {
    let i = place_of::<ChangeMeta>(m.changes, cid);
    if i < m.changes.len() && m.changes[i].signed_off is Some {
        let c = m.changes[i];
        ScryModelView {
            changes: m.changes.update(
                i,
                ChangeMetaView {
                    signed_off: Some(
                        SignOffView { staled_by: named(writer), ..c.signed_off->0 },
                    ),
                    ..c
                },
            ),
            ..m
        }
    } else {
        m
    }
}

/// The model after a plan write by `writer`: a signature of the writer's own, or
/// of nobody's, is re-stamped; another person's goes stale.
pub open spec fn restamped_by(
    m: ScryModelView,
    list: Seq<(Seq<char>, Option<Seq<char>>)>,
    now: u64,
    writer: Option<Seq<char>>,
) -> ScryModelView
    decreases list.len(),
{
    if list.len() == 0 {
        m
    } else {
        let before = restamped_by(m, list.drop_last(), now, writer);
        let (cid, signer) = list.last();
        if another_hand(writer, signer) {
            staled(before, cid, writer)
        } else {
            signed_if_open(before, cid, now, named(writer))
        }
    }
}

/// The ids among `list` whose signature is (or is not) somebody else's.
pub open spec fn ids_where(
    list: Seq<(Seq<char>, Option<Seq<char>>)>,
    writer: Option<Seq<char>>,
    other: bool,
) -> Seq<Seq<char>>
    decreases list.len(),
{
    if list.len() == 0 {
        Seq::empty()
    } else if another_hand(writer, list.last().1) == other {
        ids_where(list.drop_last(), writer, other).push(list.last().0)
    } else {
        ids_where(list.drop_last(), writer, other)
    }
}

fn mark_stale(model: &mut ScryModel, cid: &str, writer: &Option<String>)
    requires
        named(writer.deep_view()) == writer.deep_view(),
    ensures
        final(model).deep_view() == staled(old(model).deep_view(), cid@, writer.deep_view()),
{
    let ghost m = model.deep_view();
    match find(&model.changes, cid) {
        None => {},
        Some(i) => {
            let meta = at(&model.changes, i).dup();
            match meta.signed_off {
                None => {},
                Some(s) => {
                    let next = ChangeMeta {
                        id: meta.id,
                        rationale: meta.rationale,
                        title: meta.title,
                        created_at: meta.created_at,
                        signed_off: Some(
                            SignOff {
                                at: s.at,
                                by: s.by,
                                on_behalf_of: s.on_behalf_of,
                                staled_by: writer.dup(),
                                entries: s.entries,
                            },
                        ),
                    };
                    set_at(&mut model.changes, i, next);
                    assert(model.deep_view() =~= staled(m, cid@, writer.deep_view()));
                },
            }
        },
    }
}

/// What a re-stamp by a writer did.
#[derive(Debug, PartialEq)]
pub struct Restamp {
    /// Changes whose snapshot follows the write.
    pub restamped: Vec<String>,
    /// Changes whose signature the write made stale.
    pub staled: Vec<String>,
}

/// The model of a [`Restamp`].
#[verifier::ext_equal]
pub struct RestampView {
    pub restamped: Seq<Seq<char>>,
    pub staled: Seq<Seq<char>>,
}

impl DeepView for Restamp {
    type V = RestampView;

    open spec fn deep_view(&self) -> RestampView {
        RestampView {
            restamped: self.restamped.deep_view(),
            staled: self.staled.deep_view(),
        }
    }
}

impl Modelled for Restamp {
    fn dup(&self) -> (r: Self) {
        Restamp {
            restamped: self.restamped.dup(),
            staled: self.staled.dup(),
        }
    }

    fn same(&self, other: &Self) -> (r: bool) {
        self.restamped.same(&other.restamped)
            && self.staled.same(&other.staled)
    }
}

impl Clone for Restamp {
    fn clone(&self) -> (r: Self)
        ensures
            r.deep_view() == self.deep_view(),
    {
        self.dup()
    }
}

/// A name given is trimmed already.
pub proof fn lemma_named_twice(s: Option<Seq<char>>)
    ensures
        named(named(s)) == named(s),
{
    if named(s) is Some {
        crate::text::lemma_trimmed_twice(s->0);
    }
}

/// [`restamp_signoffs`], asking whose hand wrote: the writer's own approvals are
/// re-stamped, another person's go stale. It takes two different names to stale
/// anything.
pub fn restamp_signoffs_as(model: &mut ScryModel, now: u64, actor: Option<&str>) -> (r: Restamp)
    ensures
        r.deep_view() == (RestampView {
            restamped: ids_where(
                signers(old(model).deep_view().changes),
                ref_view(actor),
                false,
            ),
            staled: ids_where(signers(old(model).deep_view().changes), ref_view(actor), true),
        }),
        final(model).deep_view() == restamped_by(
            old(model).deep_view(),
            signers(old(model).deep_view().changes),
            now,
            ref_view(actor),
        ),
{
    let ghost m0 = model.deep_view();
    let ghost who = ref_view(actor);
    let writer = name_given(actor);
    proof {
        lemma_named_twice(who);
    }
    let list = signed_changes(&model.changes);
    let ghost lv = list.deep_view();
    let mut restamped: Vec<String> = fresh();
    let mut staled: Vec<String> = fresh();
    let mut i: usize = 0;
    assert(lv.take(0) =~= Seq::<(Seq<char>, Option<Seq<char>>)>::empty());
    while i < list.len()
        invariant
            i <= list@.len(),
            lv == list.deep_view(),
            writer.deep_view() == named(who),
            named(named(who)) == named(who),
            restamped.deep_view() == ids_where(lv.take(i as int), who, false),
            staled.deep_view() == ids_where(lv.take(i as int), who, true),
            model.deep_view() == restamped_by(m0, lv.take(i as int), now, who),
        decreases list@.len() - i,
    {
        let x = at(&list, i);
        assert(lv.take(i + 1).drop_last() =~= lv.take(i as int));
        assert(lv.take(i + 1).last() == lv[i as int]);
        let signer = match &x.1 {
            Some(s) => name_given(Some(s.as_str())),
            None => None,
        };
        let other = match (&writer, &signer) {
            (Some(w), Some(s)) => !w.same(s),
            _ => false,
        };
        assert(other == another_hand(who, lv[i as int].1));
        if other {
            mark_stale(model, x.0.as_str(), &writer);
            put(&mut staled, x.0.clone());
        } else {
            let w: Option<&str> = match &writer {
                Some(w) => Some(w.as_str()),
                None => None,
            };
            let _r = sign_off_as(model, x.0.as_str(), now, w);
            put(&mut restamped, x.0.clone());
        }
        i += 1;
    }
    assert(lv.take(lv.len() as int) =~= lv);
    Restamp { restamped, staled }
}

// ---- classifying ------------------------------------------------------------------

/// The keys of `ks` that are filed under `cid`, in order.
pub open spec fn filed(
    ks: Seq<Seq<char>>,
    map: Map<Seq<char>, Seq<char>>,
    cid: Seq<char>,
) -> Seq<Seq<char>>
    decreases ks.len(),
{
    if ks.len() == 0 {
        Seq::empty()
    } else if map[ks.last()] == cid {
        filed(ks.drop_last(), map, cid).push(ks.last())
    } else {
        filed(ks.drop_last(), map, cid)
    }
}

/// The keys filed under a change, in ascending order.
pub open spec fn keys_of(map: Map<Seq<char>, Seq<char>>, cid: Seq<char>) -> Seq<Seq<char>> {
    filed(ascending(map.dom()), map, cid)
}

/// The keys filed under a change, in ascending order.
pub fn filed_under(map: &StrMap<String>, cid: &str) -> (r: Vec<String>)
    ensures
        r.deep_view() == keys_of(map.deep_view(), cid@),
        forall|k: Seq<char>|
            #[trigger] r.deep_view().contains(k) <==> (map.deep_view().contains_key(k)
                && map.deep_view()[k] == cid@),
{
    let ghost m = map.deep_view();
    let ghost ks = ascending(m.dom());
    let mut out: Vec<String> = fresh();
    let n: usize = map.len();
    let mut i: usize = 0;
    assert(ks.take(0) =~= Seq::<Seq<char>>::empty());
    while i < n
        invariant
            i <= n,
            n == ks.len(),
            m == map.deep_view(),
            ks == ascending(m.dom()),
            out.deep_view() == filed(ks.take(i as int), m, cid@),
        decreases n - i,
    {
        assert(ks.take(i + 1).drop_last() =~= ks.take(i as int));
        if same_text(map.value_at(i).as_str(), cid) {
            put(&mut out, map.key_at(i).clone());
        }
        i += 1;
    }
    assert(ks.take(n as int) =~= ks);
    proof {
        assert forall|k: Seq<char>| #[trigger] out.deep_view().contains(k) <==> (m.contains_key(k)
            && m[k] == cid@) by {
            lemma_filed(ks, m, cid@, k);
            assert(ks.to_set().contains(k) <==> m.contains_key(k));
        }
    }
    out
}

/// A key is filed exactly when it is there and its change is the one asked for.
pub proof fn lemma_filed(
    ks: Seq<Seq<char>>,
    map: Map<Seq<char>, Seq<char>>,
    cid: Seq<char>,
    k: Seq<char>,
)
    ensures
        filed(ks, map, cid).contains(k) <==> ks.contains(k) && map[k] == cid,
    decreases ks.len(),
{
    if ks.len() > 0 {
        let d = ks.drop_last();
        lemma_filed(d, map, cid, k);
        let f = filed(d, map, cid);
        if d.contains(k) {
            let i = choose|i: int| 0 <= i < d.len() && d[i] == k;
            assert(ks[i] == k);
        }
        if ks.contains(k) && k != ks.last() {
            let i = choose|i: int| 0 <= i < ks.len() && ks[i] == k;
            assert(d[i] == k);
        }
        if map[ks.last()] == cid {
            let g = f.push(ks.last());
            if f.contains(k) {
                let i = choose|i: int| 0 <= i < f.len() && f[i] == k;
                assert(g[i] == k);
            }
            assert(g[f.len() as int] == ks.last());
            if g.contains(k) && k != ks.last() {
                let i = choose|i: int| 0 <= i < g.len() && g[i] == k;
                assert(f[i] == k);
            }
        }
        assert(ks[ks.len() - 1] == ks.last());
    }
}

/// One entry that is not as it was signed.
pub type Finding = (String, Classification, Option<SignedEntry>);

/// The model of a [`Finding`].
pub type FindingView = (Seq<char>, Classification, Option<SignedEntryView>);

/// The filed keys that are not as they were signed.
pub open spec fn moved_on(
    m: ScryModelView,
    entries: Map<Seq<char>, SignedEntryView>,
    ks: Seq<Seq<char>>,
) -> Seq<FindingView>
    decreases ks.len(),
{
    if ks.len() == 0 {
        Seq::empty()
    } else {
        let k = ks.last();
        let rest = moved_on(m, entries, ks.drop_last());
        match lookup(entries, k) {
            Some(was) => if was.hash == entry_or_deleted(m, k).hash {
                rest
            } else {
                rest.push((k, Classification::Amended, Some(was)))
            },
            None => rest.push((k, Classification::Added, None)),
        }
    }
}

/// The signed keys that are no longer filed.
pub open spec fn left_out(
    entries: Map<Seq<char>, SignedEntryView>,
    filed_now: Seq<Seq<char>>,
    ks: Seq<Seq<char>>,
) -> Seq<FindingView>
    decreases ks.len(),
{
    if ks.len() == 0 {
        Seq::empty()
    } else {
        let k = ks.last();
        let rest = left_out(entries, filed_now, ks.drop_last());
        if filed_now.contains(k) {
            rest
        } else {
            rest.push((k, Classification::Dropped, Some(entries[k])))
        }
    }
}

/// Everything about a change that is not as it was signed.
pub open spec fn findings(m: ScryModelView, meta: ChangeMetaView) -> Seq<FindingView> {
    match meta.signed_off {
        None => Seq::empty(),
        Some(snap) => {
            let now = keys_of(m.change_map, meta.id);
            moved_on(m, snap.entries, now) + left_out(
                snap.entries,
                now,
                ascending(snap.entries.dom()),
            )
        },
    }
}

/// Every entry of a signed change that is not untouched intent, with what was
/// signed; nothing for an unsigned change.
pub fn classify_against_signoff(model: &ScryModel, meta: &ChangeMeta) -> (r: Vec<Finding>)
    ensures
        r.deep_view() == findings(model.deep_view(), meta.deep_view()),
{
    let ghost m = model.deep_view();
    let mut out: Vec<Finding> = fresh();
    match &meta.signed_off {
        None => out,
        Some(snap) => {
            let ghost entries = snap.entries.deep_view();
            let now = filed_under(&model.change_map, meta.id.as_str());
            let ghost nv = now.deep_view();
            let mut i: usize = 0;
            assert(nv.take(0) =~= Seq::<Seq<char>>::empty());
            while i < now.len()
                invariant
                    i <= now@.len(),
                    m == model.deep_view(),
                    nv == now.deep_view(),
                    entries == snap.entries.deep_view(),
                    out.deep_view() == moved_on(m, entries, nv.take(i as int)),
                decreases now@.len() - i,
            {
                let k = at(&now, i);
                assert(nv.take(i + 1).drop_last() =~= nv.take(i as int));
                let e = signed_entry(model, k.as_str());
                match snap.entries.get(k.as_str()) {
                    Some(was) => {
                        if !was.hash.same(&e.hash) {
                            put(&mut out, (k.clone(), Classification::Amended, Some(was.dup())));
                        }
                    },
                    None => {
                        put(&mut out, (k.clone(), Classification::Added, None));
                    },
                }
                i += 1;
            }
            assert(nv.take(nv.len() as int) =~= nv);
            let ghost head = out.deep_view();
            let ghost ks = ascending(entries.dom());
            let n: usize = snap.entries.len();
            let mut j: usize = 0;
            assert(ks.take(0) =~= Seq::<Seq<char>>::empty());
            assert(head + left_out(entries, nv, ks.take(0)) =~= head);
            while j < n
                invariant
                    j <= n,
                    n == ks.len(),
                    nv == now.deep_view(),
                    entries == snap.entries.deep_view(),
                    ks == ascending(entries.dom()),
                    out.deep_view() == head + left_out(entries, nv, ks.take(j as int)),
                decreases n - j,
            {
                let k = snap.entries.key_at(j);
                assert(ks.take(j + 1).drop_last() =~= ks.take(j as int));
                if !holds(&now, k.as_str()) {
                    put(
                        &mut out,
                        (k.clone(), Classification::Dropped, Some(snap.entries.value_at(j).dup())),
                    );
                    assert(out.deep_view() =~= head + left_out(entries, nv, ks.take(j + 1)));
                }
                j += 1;
            }
            assert(ks.take(n as int) =~= ks);
            out
        },
    }
}

/// How one key stands against the sign-off of its change; none when it is
/// unfiled, when its change is unsigned, or when it is untouched.
pub open spec fn standing(m: ScryModelView, key: Seq<char>) -> Option<FindingView> {
    match lookup(m.change_map, key) {
        None => None,
        Some(cid) => match first::<ChangeMeta>(m.changes, cid) {
            None => None,
            Some(meta) => match meta.signed_off {
                None => None,
                Some(snap) => match lookup(snap.entries, key) {
                    Some(was) => if was.hash == entry_or_deleted(m, key).hash {
                        None
                    } else {
                        Some((cid, Classification::Amended, Some(was)))
                    },
                    None => Some((cid, Classification::Added, None)),
                },
            },
        },
    }
}

/// How one key stands against the sign-off of its change: the change, the
/// classification, and what was signed.
pub fn classify_key(model: &ScryModel, key: &str) -> (r: Option<Finding>)
    ensures
        r.deep_view() == standing(model.deep_view(), key@),
{
    match model.change_map.get(key) {
        None => None,
        Some(cid) => match find(&model.changes, cid.as_str()) {
            None => None,
            Some(i) => match &at(&model.changes, i).signed_off {
                None => None,
                Some(snap) => {
                    let now = signed_entry(model, key);
                    match snap.entries.get(key) {
                        Some(was) => if was.hash.same(&now.hash) {
                            None
                        } else {
                            Some((cid.clone(), Classification::Amended, Some(was.dup())))
                        },
                        None => Some((cid.clone(), Classification::Added, None)),
                    }
                },
            },
        },
    }
}

// ---- laws ---------------------------------------------------------------------

proof fn lemma_nothing_moved(
    m: ScryModelView,
    entries: Map<Seq<char>, SignedEntryView>,
    ks: Seq<Seq<char>>,
)
    requires
        forall|i: int|
            0 <= i < ks.len() ==> entries.contains_key(#[trigger] ks[i]) && entries[ks[i]]
                == entry_or_deleted(m, ks[i]),
    ensures
        moved_on(m, entries, ks).len() == 0,
    decreases ks.len(),
{
    if ks.len() > 0 {
        assert(entries.contains_key(ks[ks.len() - 1]));
        assert forall|i: int| 0 <= i < ks.len() - 1 implies entries.contains_key(
            #[trigger] ks.drop_last()[i],
        ) && entries[ks.drop_last()[i]] == entry_or_deleted(m, ks.drop_last()[i]) by {
            assert(entries.contains_key(ks[i]));
        }
        lemma_nothing_moved(m, entries, ks.drop_last());
    }
}

proof fn lemma_nothing_left_out(
    entries: Map<Seq<char>, SignedEntryView>,
    filed_now: Seq<Seq<char>>,
    ks: Seq<Seq<char>>,
)
    requires
        forall|i: int| 0 <= i < ks.len() ==> filed_now.contains(#[trigger] ks[i]),
    ensures
        left_out(entries, filed_now, ks).len() == 0,
    decreases ks.len(),
{
    if ks.len() > 0 {
        assert(filed_now.contains(ks[ks.len() - 1]));
        assert forall|i: int| 0 <= i < ks.len() - 1 implies filed_now.contains(
            #[trigger] ks.drop_last()[i],
        ) by {
            assert(filed_now.contains(ks[i]));
        }
        lemma_nothing_left_out(entries, filed_now, ks.drop_last());
    }
}

/// What was just signed reads as untouched: nothing amended, added or dropped.
pub proof fn law_signed_reads_untouched(
    m: ScryModelView,
    cid: Seq<char>,
    now: u64,
    actor: Option<Seq<char>>,
    person: Option<Seq<char>>,
)
    requires
        has_named::<ChangeMeta>(m.changes, cid),
        m.change_map.dom().finite(),
    ensures
        ({
            let s = signed(m, cid, now, actor, person);
            findings(s, s.changes[place_of::<ChangeMeta>(m.changes, cid)]).len() == 0
        }),
{
    let s = signed(m, cid, now, actor, person);
    lemma_place_of::<ChangeMeta>(m.changes, cid);
    let i = place_of::<ChangeMeta>(m.changes, cid);
    let entries = snapshot(m, cid);
    let ks = ascending(m.change_map.dom());
    crate::text::lemma_ascending_of(m.change_map.dom());
    let mine = keys_of(m.change_map, cid);
    assert forall|j: int| 0 <= j < mine.len() implies entries.contains_key(#[trigger] mine[j])
        && entries[mine[j]] == entry_or_deleted(s, mine[j]) by {
        lemma_filed(ks, m.change_map, cid, mine[j]);
        assert(mine.contains(mine[j]));
        assert(ks.to_set().contains(mine[j]));
    }
    lemma_nothing_moved(s, entries, mine);
    let es = ascending(entries.dom());
    assert(entries.dom().subset_of(m.change_map.dom()));
    vstd::set_lib::lemma_set_subset_finite(m.change_map.dom(), entries.dom());
    crate::text::lemma_ascending_of(entries.dom());
    assert forall|j: int| 0 <= j < es.len() implies mine.contains(#[trigger] es[j]) by {
        assert(es.to_set().contains(es[j]));
        assert(ks.to_set().contains(es[j]));
        lemma_filed(ks, m.change_map, cid, es[j]);
    }
    lemma_nothing_left_out(entries, mine, es);
}

/// A re-stamp without a name keeps who signed, for whom, and the stale mark.
pub proof fn law_unnamed_restamp_keeps_the_signature(
    p: SignOffView,
    entries: Map<Seq<char>, SignedEntryView>,
    now: u64,
    person: Option<Seq<char>>,
)
    ensures
        ({
            let s = signature(Some(p), entries, now, None, person);
            s.by == p.by && s.on_behalf_of == p.on_behalf_of && s.staled_by == p.staled_by
        }),
{
}

/// A signature goes stale only between two different names: a write without a
/// name, and a signature without one, stale nothing.
pub proof fn law_stale_takes_two_names(
    list: Seq<(Seq<char>, Option<Seq<char>>)>,
    writer: Option<Seq<char>>,
)
    requires
        named(writer) is None || forall|i: int|
            0 <= i < list.len() ==> named((#[trigger] list[i]).1) is None || named(list[i].1)
                == named(writer),
    ensures
        ids_where(list, writer, true).len() == 0,
        ids_where(list, writer, false).len() == list.len(),
    decreases list.len(),
{
    if list.len() > 0 {
        let d = list.drop_last();
        if named(writer) is Some {
            let l = list[list.len() - 1];
            assert(named(l.1) is None || named(l.1) == named(writer));
            assert forall|i: int| 0 <= i < d.len() implies named((#[trigger] d[i]).1) is None
                || named(d[i].1) == named(writer) by {
                assert(named(list[i].1) is None || named(list[i].1) == named(writer));
            }
        }
        law_stale_takes_two_names(d, writer);
    }
}

/// Cosmetics do not count: two nodes with the same kind, name, parent,
/// description, technology and external mark have the same signed text, whatever
/// their place, icon, notes, flags, directives or claims.
pub proof fn law_node_cosmetics_are_unsigned(a: NodeView, b: NodeView)
    requires
        a.kind == b.kind,
        a.name == b.name,
        or_empty(a.parent_id) == or_empty(b.parent_id),
        or_empty(a.description) == or_empty(b.description),
        or_empty(a.technology) == or_empty(b.technology),
        (a.external == Some(true)) == (b.external == Some(true)),
    ensures
        plain_entry(node_text(a)) == plain_entry(node_text(b)),
{
}

} // verus!
