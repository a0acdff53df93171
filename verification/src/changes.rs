//! The change ledger: named partitions of the plan.

use crate::diff::{ref_view, ElementChange, ElementChangeView, ElementKind};
use crate::model::ScryModel;
use crate::modelled::{or_empty, Modelled};
use crate::named::Named;
use crate::strmap::StrMap;
use crate::text::{
    cat2, cat3, chars_of, dec, decimal, end_of, first_place, is_white, lemma_first_exists,
    lemma_first_place, lemma_trimmed_end_keeps, lemma_trimmed_start, same_text, split_once,
    start_of, trim, trimmed, trimmed_end, trimmed_start,
};
pub use crate::ledger::{
    abandon_change, close_change, dead_tags, foreign_to_host, gc, open_change, open_change_titled,
    opened_by, record_abandoned, record_closed, record_opened, record_signed_off, retag, retag_without,
    set_title, tag, would_abandon, Abandoned, DroppedEntry, Gc, Retag,
};
pub use crate::signoff::{
    classify_against_signoff, classify_key, entry_hash, fnv1a64, restamp_signoffs,
    restamp_signoffs_as, sign_off, sign_off_as, sign_off_for, Restamp,
};
use vstd::prelude::*;
use vstd::string::*;

verus! {

/// How a project's changes are approved. It rides the committed model; a model
/// that carries none has every policy off.
#[derive(Debug, PartialEq)]
pub struct Policy {
    /// A fold needs a signature by somebody other than the author.
    pub require_countersigned_folds: bool,
    /// Opening a change without a title is refused.
    pub require_change_titles: bool,
}

/// The model of a [`Policy`].
#[verifier::ext_equal]
pub struct PolicyView {
    pub require_countersigned_folds: bool,
    pub require_change_titles: bool,
}

impl DeepView for Policy {
    type V = PolicyView;

    open spec fn deep_view(&self) -> PolicyView {
        PolicyView {
            require_countersigned_folds: self.require_countersigned_folds.deep_view(),
            require_change_titles: self.require_change_titles.deep_view(),
        }
    }
}

impl Modelled for Policy {
    fn dup(&self) -> (r: Self) {
        Policy {
            require_countersigned_folds: self.require_countersigned_folds.dup(),
            require_change_titles: self.require_change_titles.dup(),
        }
    }

    fn same(&self, other: &Self) -> (r: bool) {
        self.require_countersigned_folds.same(&other.require_countersigned_folds)
            && self.require_change_titles.same(&other.require_change_titles)
    }
}

impl Clone for Policy {
    fn clone(&self) -> (r: Self)
        ensures
            r.deep_view() == self.deep_view(),
    {
        self.dup()
    }
}

/// One open change.
#[derive(Debug, PartialEq)]
pub struct ChangeMeta {
    pub id: String,
    /// Why the change exists.
    pub rationale: String,
    /// A short name.
    pub title: Option<String>,
    /// Unix seconds.
    pub created_at: u64,
    /// The go-ahead, when given.
    pub signed_off: Option<SignOff>,
}

/// The model of a [`ChangeMeta`].
#[verifier::ext_equal]
pub struct ChangeMetaView {
    pub id: Seq<char>,
    pub rationale: Seq<char>,
    pub title: Option<Seq<char>>,
    pub created_at: u64,
    pub signed_off: Option<SignOffView>,
}

impl DeepView for ChangeMeta {
    type V = ChangeMetaView;

    open spec fn deep_view(&self) -> ChangeMetaView {
        ChangeMetaView {
            id: self.id.deep_view(),
            rationale: self.rationale.deep_view(),
            title: self.title.deep_view(),
            created_at: self.created_at.deep_view(),
            signed_off: self.signed_off.deep_view(),
        }
    }
}

impl Modelled for ChangeMeta {
    fn dup(&self) -> (r: Self) {
        ChangeMeta {
            id: self.id.dup(),
            rationale: self.rationale.dup(),
            title: self.title.dup(),
            created_at: self.created_at.dup(),
            signed_off: self.signed_off.dup(),
        }
    }

    fn same(&self, other: &Self) -> (r: bool) {
        self.id.same(&other.id)
            && self.rationale.same(&other.rationale)
            && self.title.same(&other.title)
            && self.created_at.same(&other.created_at)
            && self.signed_off.same(&other.signed_off)
    }
}

impl Clone for ChangeMeta {
    fn clone(&self) -> (r: Self)
        ensures
            r.deep_view() == self.deep_view(),
    {
        self.dup()
    }
}

/// A sign-off: when, by whom, and what each tagged entry held.
#[derive(Debug, PartialEq)]
pub struct SignOff {
    /// Unix seconds.
    pub at: u64,
    /// Who signed, when named.
    pub by: Option<String>,
    /// The person a proxy signed for.
    pub on_behalf_of: Option<String>,
    /// Whose hand moved the plan on since; absent while the signature stands.
    pub staled_by: Option<String>,
    /// Element key to the signed content.
    pub entries: StrMap<SignedEntry>,
}

/// The model of a [`SignOff`].
#[verifier::ext_equal]
pub struct SignOffView {
    pub at: u64,
    pub by: Option<Seq<char>>,
    pub on_behalf_of: Option<Seq<char>>,
    pub staled_by: Option<Seq<char>>,
    pub entries: Map<Seq<char>, SignedEntryView>,
}

impl DeepView for SignOff {
    type V = SignOffView;

    open spec fn deep_view(&self) -> SignOffView {
        SignOffView {
            at: self.at.deep_view(),
            by: self.by.deep_view(),
            on_behalf_of: self.on_behalf_of.deep_view(),
            staled_by: self.staled_by.deep_view(),
            entries: self.entries.deep_view(),
        }
    }
}

impl Modelled for SignOff {
    fn dup(&self) -> (r: Self) {
        SignOff {
            at: self.at.dup(),
            by: self.by.dup(),
            on_behalf_of: self.on_behalf_of.dup(),
            staled_by: self.staled_by.dup(),
            entries: self.entries.dup(),
        }
    }

    fn same(&self, other: &Self) -> (r: bool) {
        self.at.same(&other.at)
            && self.by.same(&other.by)
            && self.on_behalf_of.same(&other.on_behalf_of)
            && self.staled_by.same(&other.staled_by)
            && self.entries.same(&other.entries)
    }
}

impl Clone for SignOff {
    fn clone(&self) -> (r: Self)
        ensures
            r.deep_view() == self.deep_view(),
    {
        self.dup()
    }
}

/// What a sign-off remembers of one entry.
#[derive(Debug, PartialEq)]
pub struct SignedEntry {
    /// Digest of the truth-bearing fields.
    pub hash: String,
    /// The approved statement of a claim.
    pub statement: Option<String>,
    /// The host the entry sat on.
    pub host: Option<String>,
}

/// The model of a [`SignedEntry`].
#[verifier::ext_equal]
pub struct SignedEntryView {
    pub hash: Seq<char>,
    pub statement: Option<Seq<char>>,
    pub host: Option<Seq<char>>,
}

impl DeepView for SignedEntry {
    type V = SignedEntryView;

    open spec fn deep_view(&self) -> SignedEntryView {
        SignedEntryView {
            hash: self.hash.deep_view(),
            statement: self.statement.deep_view(),
            host: self.host.deep_view(),
        }
    }
}

impl Modelled for SignedEntry {
    fn dup(&self) -> (r: Self) {
        SignedEntry {
            hash: self.hash.dup(),
            statement: self.statement.dup(),
            host: self.host.dup(),
        }
    }

    fn same(&self, other: &Self) -> (r: bool) {
        self.hash.same(&other.hash)
            && self.statement.same(&other.statement)
            && self.host.same(&other.host)
    }
}

impl Clone for SignedEntry {
    fn clone(&self) -> (r: Self)
        ensures
            r.deep_view() == self.deep_view(),
    {
        self.dup()
    }
}

/// How an entry of a signed-off change stands against the snapshot.
#[derive(Debug, Clone, Copy, PartialEq, Eq, Structural)]
pub enum Classification {
    /// As approved.
    Untouched,
    /// There at sign-off, different now.
    Amended,
    /// Not there at sign-off.
    Added,
    /// There at sign-off, gone now.
    Dropped,
}

impl DeepView for Classification {
    type V = Classification;

    open spec fn deep_view(&self) -> Classification {
        *self
    }
}

impl Modelled for Classification {
    fn dup(&self) -> (r: Self) {
        *self
    }

    fn same(&self, other: &Self) -> (r: bool) {
        *self == *other
    }
}
impl Classification {
    /// The origin stamped on a claim that a fold holds back.
    pub fn origin(self) -> (r: Option<&'static str>)
        ensures
            ref_view(r) == (match self {
                Classification::Amended => Some("amendment"@),
                Classification::Added => Some("addition"@),
                _ => None,
            }),
    {
        match self {
            Classification::Amended => Some("amendment"),
            Classification::Added => Some("addition"),
            _ => None,
        }
    }
}

impl Named for ChangeMeta {
    open spec fn name_of(v: ChangeMetaView) -> Seq<char> {
        v.id
    }

    fn found_by(&self) -> (r: &String) {
        &self.id
    }
}

// ---- element keys ---------------------------------------------------------------

/// The key of an element. Properties have no id: they are keyed by host and label.
pub open spec fn key(kind: ElementKind, owner: Option<Seq<char>>, id: Seq<char>) -> Seq<char> {
    match kind {
        ElementKind::Node => "node:"@ + id,
        ElementKind::Link => "link:"@ + id,
        ElementKind::Group => "group:"@ + id,
        ElementKind::Responsibility => "resp:"@ + id,
        ElementKind::Property => "prop:"@ + or_empty(owner) + ":"@ + id,
    }
}

/// The key of an element: its kind, then what identifies it.
pub fn element_key(kind: ElementKind, owner_id: Option<&str>, id: &str) -> (r: String)
    ensures
        r@ == key(kind, ref_view(owner_id), id@),
{
    match kind {
        ElementKind::Node => cat2("node:", id),
        ElementKind::Link => cat2("link:", id),
        ElementKind::Group => cat2("group:", id),
        ElementKind::Responsibility => cat2("resp:", id),
        ElementKind::Property => {
            let mut s = match owner_id {
                Some(o) => cat3("prop:", o, ":"),
                None => {
                    assert("prop:"@ + Seq::<char>::empty() =~= "prop:"@);
                    cat2("prop:", ":")
                },
            };
            s.append(id);
            s
        },
    }
}

/// The key of a plan entry.
pub open spec fn key_of(ch: ElementChangeView) -> Seq<char> {
    key(ch.kind, ch.owner_id, ch.id)
}

/// The key of a plan entry: the joint between the change map and the plan.
pub fn key_for(change: &ElementChange) -> (r: String)
    ensures
        r@ == key_of(change.deep_view()),
{
    let owner: Option<&str> = match &change.owner_id {
        Some(o) => Some(o.as_str()),
        None => None,
    };
    element_key(change.kind, owner, change.id.as_str())
}

/// What a key says: the kind before the first colon, and what follows it.
pub open spec fn parsed(k: Seq<char>) -> Option<(ElementKind, Option<Seq<char>>, Seq<char>)> {
    if !k.contains(':') {
        None
    } else {
        let head = k.take(first_place(k, ':'));
        let rest = k.skip(first_place(k, ':') + 1);
        if head == "node"@ {
            Some((ElementKind::Node, None, rest))
        } else if head == "link"@ {
            Some((ElementKind::Link, None, rest))
        } else if head == "group"@ {
            Some((ElementKind::Group, None, rest))
        } else if head == "resp"@ {
            Some((ElementKind::Responsibility, None, rest))
        } else if head == "prop"@ && rest.contains(':') {
            Some(
                (
                    ElementKind::Property,
                    Some(rest.take(first_place(rest, ':'))),
                    rest.skip(first_place(rest, ':') + 1),
                ),
            )
        } else {
            None
        }
    }
}

/// Takes a key apart again; none for a text that is no key.
pub fn parse_key(key: &str) -> (r: Option<(ElementKind, Option<String>, String)>)
    ensures
        match r {
            Some((kind, owner, id)) => parsed(key@) == Some((kind, owner.deep_view(), id@)),
            None => parsed(key@) is None,
        },
{
    match split_once(key, ':') {
        None => None,
        Some((kind, rest)) => {
            if same_text(kind, "node") {
                Some((ElementKind::Node, None, rest.to_owned()))
            } else if same_text(kind, "link") {
                Some((ElementKind::Link, None, rest.to_owned()))
            } else if same_text(kind, "group") {
                Some((ElementKind::Group, None, rest.to_owned()))
            } else if same_text(kind, "resp") {
                Some((ElementKind::Responsibility, None, rest.to_owned()))
            } else if same_text(kind, "prop") {
                match split_once(rest, ':') {
                    None => None,
                    Some((owner, label)) => Some(
                        (ElementKind::Property, Some(owner.to_owned()), label.to_owned()),
                    ),
                }
            } else {
                None
            }
        },
    }
}

proof fn lemma_split_head(head: Seq<char>, rest: Seq<char>)
    requires
        !head.contains(':'),
    ensures
        (head + seq![':'] + rest).contains(':'),
        first_place(head + seq![':'] + rest, ':') == head.len(),
        (head + seq![':'] + rest).take(head.len() as int) == head,
        (head + seq![':'] + rest).skip(head.len() as int + 1) == rest,
{
    let s = head + seq![':'] + rest;
    assert(s[head.len() as int] == ':');
    assert(s.take(head.len() as int) =~= head);
    assert(s.skip(head.len() as int + 1) =~= rest);
    lemma_first_place(s, ':', head.len() as int);
}

/// A key leads back to the element it was made of, as long as no host id holds a
/// colon; a label may.
pub proof fn law_key_round_trip(kind: ElementKind, owner: Option<Seq<char>>, id: Seq<char>)
    requires
        kind == ElementKind::Property ==> owner is Some && !owner->0.contains(':'),
        kind != ElementKind::Property ==> owner is None,
    ensures
        parsed(key(kind, owner, id)) == Some((kind, owner, id)),
{
    reveal_strlit("node:");
    reveal_strlit("link:");
    reveal_strlit("group:");
    reveal_strlit("resp:");
    reveal_strlit("prop:");
    reveal_strlit("node");
    reveal_strlit("link");
    reveal_strlit("group");
    reveal_strlit("resp");
    reveal_strlit("prop");
    reveal_strlit(":");
    let k = key(kind, owner, id);
    match kind {
        ElementKind::Node => {
            assert(k =~= "node"@ + seq![':'] + id);
            lemma_split_head("node"@, id);
        },
        ElementKind::Link => {
            assert(k =~= "link"@ + seq![':'] + id);
            lemma_split_head("link"@, id);
            assert("link"@[0] != "node"@[0]);
        },
        ElementKind::Group => {
            assert(k =~= "group"@ + seq![':'] + id);
            lemma_split_head("group"@, id);
            assert("group"@.len() == 5 && "node"@.len() == 4 && "link"@.len() == 4);
        },
        ElementKind::Responsibility => {
            assert(k =~= "resp"@ + seq![':'] + id);
            lemma_split_head("resp"@, id);
            assert("resp"@[0] != "node"@[0] && "resp"@[0] != "link"@[0]);
            assert("group"@.len() == 5);
        },
        ElementKind::Property => {
            let o = owner->0;
            let rest = o + seq![':'] + id;
            assert(k =~= "prop"@ + seq![':'] + rest);
            lemma_split_head("prop"@, rest);
            lemma_split_head(o, id);
            assert("prop"@[0] != "node"@[0] && "prop"@[0] != "link"@[0] && "prop"@[0]
                != "resp"@[0]);
            assert("group"@.len() == 5);
        },
    }
}

// ---- policy and titles ----------------------------------------------------------

/// Must a fold be countersigned? Off for a model without a policy.
pub fn requires_countersigned_folds(model: &ScryModel) -> (r: bool)
    ensures
        r == (model.policy is Some && model.policy->0.require_countersigned_folds),
{
    match &model.policy {
        Some(p) => p.require_countersigned_folds,
        None => false,
    }
}

/// Is opening a change without a title refused? Off for a model without a policy.
pub fn requires_change_titles(model: &ScryModel) -> (r: bool)
    ensures
        r == (model.policy is Some && model.policy->0.require_change_titles),
{
    match &model.policy {
        Some(p) => p.require_change_titles,
        None => false,
    }
}

/// The longest a title may be, in characters.
pub const MAX_TITLE_LEN: usize = 80;

/// What is said of an empty title.
pub open spec fn title_empty() -> Seq<char> {
    "a title is empty — give the change a short name, or pass none"@
}

/// What is said of a title of `n` characters, which is too long.
pub open spec fn title_too_long(n: nat) -> Seq<char> {
    "title is "@ + decimal(n)
        + " characters; at most 80 — say what the change is, not what it does (the rationale is where that goes)"@
}

/// The title, trimmed; refused when nothing is left of it or when it is longer
/// than [`MAX_TITLE_LEN`] characters.
pub fn validate_title(title: &str) -> (r: Result<String, String>)
    ensures
        match r {
            Ok(t) => t@ == trimmed(title@) && 0 < t@.len() <= MAX_TITLE_LEN,
            Err(e) => {
                ||| trimmed(title@).len() == 0 && e@ == title_empty()
                ||| trimmed(title@).len() > MAX_TITLE_LEN && e@ == title_too_long(
                    trimmed(title@).len(),
                )
            },
        },
{
    let t = trim(title);
    let n: usize = t.unicode_len();
    if n == 0 {
        return Err("a title is empty — give the change a short name, or pass none".to_owned());
    }
    if n > MAX_TITLE_LEN {
        return Err(
            cat3(
                "title is ",
                dec(n as u64).as_str(),
                " characters; at most 80 — say what the change is, not what it does (the rationale is where that goes)",
            ),
        );
    }
    Ok(t.to_owned())
}

/// The first line of `s` with anything on it, trimmed.
pub open spec fn first_line(s: Seq<char>) -> Seq<char> {
    let t = trimmed_start(s);
    trimmed_end(
        if t.contains('\n') {
            t.take(first_place(t, '\n'))
        } else {
            t
        },
    )
}

/// What a change is called: its title, or else the first line of its rationale.
pub open spec fn shown_title(m: ChangeMetaView) -> Seq<char> {
    if m.title is Some && trimmed(m.title->0).len() > 0 {
        trimmed(m.title->0)
    } else {
        first_line(m.rationale)
    }
}

/// What a change is called: its title, or else the first line of its rationale.
pub fn title_of(meta: &ChangeMeta) -> (r: &str)
    ensures
        r@ == shown_title(meta.deep_view()),
{
    match &meta.title {
        Some(t) => {
            let t = trim(t.as_str());
            if !t.is_empty() {
                return t;
            }
        },
        None => {},
    }
    let s = meta.rationale.as_str();
    let v = chars_of(s);
    let i = start_of(&v);
    let ghost t = trimmed_start(s@);
    let mut k: usize = i;
    while k < v.len() && v[k] != '\n'
        invariant
            i <= k <= v@.len(),
            v@ == s@,
            forall|j: int| i <= j < k ==> v@[j] != '\n',
        decreases v@.len() - k,
    {
        k += 1;
    }
    proof {
        assert(t == v@.skip(i as int));
        if k < v.len() {
            assert(t[k - i] == '\n');
            assert(!t.take(k - i).contains('\n'));
            lemma_first_place(t, '\n', k - i);
            assert(t.take(k - i) =~= v@.subrange(i as int, k as int));
        } else {
            assert(!t.contains('\n'));
            assert(t =~= v@.subrange(i as int, k as int));
        }
    }
    let j = end_of(&v, i, k);
    s.substring_char(i, j)
}

/// A change with a title or a rationale that says anything has something to show.
pub proof fn law_a_change_always_reads(m: ChangeMetaView)
    requires
        trimmed(m.rationale).len() > 0 || (m.title is Some && trimmed(m.title->0).len() > 0),
    ensures
        shown_title(m).len() > 0,
{
    if !(m.title is Some && trimmed(m.title->0).len() > 0) {
        let t = trimmed_start(m.rationale);
        lemma_trimmed_start(m.rationale);
        if t.len() == 0 {
            assert(trimmed_end(t) =~= t);
        } else if t.contains('\n') {
            let i = choose|i: int| 0 <= i < t.len() && t[i] == '\n';
            lemma_first_exists(t, '\n');
            let p = first_place(t, '\n');
            assert(is_white('\n'));
            assert(p > 0);
            lemma_trimmed_end_keeps(t.take(p));
        } else {
            lemma_trimmed_end_keeps(t);
        }
    }
}

impl SignOff {
    /// Has another hand moved the plan on since this signature?
    pub fn is_stale(&self) -> (r: bool)
        ensures
            r == (self.staled_by is Some),
    {
        self.staled_by.is_some()
    }
}

} // verus!
