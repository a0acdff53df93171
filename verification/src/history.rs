//! The history of a model: events, each with the rows a reader is shown.

use crate::model::{SourceLocation, SourceLocationView};
use crate::modelled::{fresh, Modelled};
use crate::text::{trim, trimmed};
use vstd::prelude::*;
use vstd::string::*;

verus! {

/// What an event records.
#[derive(Debug, Clone, Copy, PartialEq, Eq, Structural, Hash)]
pub enum EventKind {
    /// Planned claims reached the committed model.
    Impl,
    /// Drift was reconciled.
    Drift,
    /// Something moved.
    Move,
    /// A node entered the committed model.
    Born,
    /// A plan change was opened, signed off or closed; it spans nodes.
    Change,
    /// A plan write: proposed, not built.
    Plan,
}

impl DeepView for EventKind {
    type V = EventKind;

    open spec fn deep_view(&self) -> EventKind {
        *self
    }
}

impl Modelled for EventKind {
    fn dup(&self) -> (r: Self) {
        *self
    }

    fn same(&self, other: &Self) -> (r: bool) {
        *self == *other
    }
}

/// One row of an event.
#[derive(Debug, PartialEq)]
pub struct EventRow {
    /// A single character: added, removed, said.
    pub marker: String,
    pub text: String,
    pub source: Option<SourceLocation>,
}

/// The model of a [`EventRow`].
#[verifier::ext_equal]
pub struct EventRowView {
    pub marker: Seq<char>,
    pub text: Seq<char>,
    pub source: Option<SourceLocationView>,
}

impl DeepView for EventRow {
    type V = EventRowView;

    open spec fn deep_view(&self) -> EventRowView {
        EventRowView {
            marker: self.marker.deep_view(),
            text: self.text.deep_view(),
            source: self.source.deep_view(),
        }
    }
}

impl Modelled for EventRow {
    fn dup(&self) -> (r: Self) {
        EventRow {
            marker: self.marker.dup(),
            text: self.text.dup(),
            source: self.source.dup(),
        }
    }

    fn same(&self, other: &Self) -> (r: bool) {
        self.marker.same(&other.marker)
            && self.text.same(&other.text)
            && self.source.same(&other.source)
    }
}

impl Clone for EventRow {
    fn clone(&self) -> (r: Self)
        ensures
            r.deep_view() == self.deep_view(),
    {
        self.dup()
    }
}

/// One event.
#[derive(Debug, PartialEq)]
pub struct HistoryEvent {
    /// Unix seconds.
    pub at: u64,
    /// Who drove it.
    pub by: String,
    /// How it came about.
    pub driver: String,
    pub kind: EventKind,
    /// The node it is about; empty when it spans nodes.
    pub node_id: String,
    /// The change it belongs to.
    pub change_id: Option<String>,
    /// What that change is called.
    pub change_title: Option<String>,
    /// The person the actor acted for.
    pub on_behalf_of: Option<String>,
    pub rows: Vec<EventRow>,
}

/// The model of a [`HistoryEvent`].
#[verifier::ext_equal]
pub struct HistoryEventView {
    pub at: u64,
    pub by: Seq<char>,
    pub driver: Seq<char>,
    pub kind: EventKind,
    pub node_id: Seq<char>,
    pub change_id: Option<Seq<char>>,
    pub change_title: Option<Seq<char>>,
    pub on_behalf_of: Option<Seq<char>>,
    pub rows: Seq<EventRowView>,
}

impl DeepView for HistoryEvent {
    type V = HistoryEventView;

    open spec fn deep_view(&self) -> HistoryEventView {
        HistoryEventView {
            at: self.at.deep_view(),
            by: self.by.deep_view(),
            driver: self.driver.deep_view(),
            kind: self.kind.deep_view(),
            node_id: self.node_id.deep_view(),
            change_id: self.change_id.deep_view(),
            change_title: self.change_title.deep_view(),
            on_behalf_of: self.on_behalf_of.deep_view(),
            rows: self.rows.deep_view(),
        }
    }
}

impl Modelled for HistoryEvent {
    fn dup(&self) -> (r: Self) {
        HistoryEvent {
            at: self.at.dup(),
            by: self.by.dup(),
            driver: self.driver.dup(),
            kind: self.kind.dup(),
            node_id: self.node_id.dup(),
            change_id: self.change_id.dup(),
            change_title: self.change_title.dup(),
            on_behalf_of: self.on_behalf_of.dup(),
            rows: self.rows.dup(),
        }
    }

    fn same(&self, other: &Self) -> (r: bool) {
        self.at.same(&other.at)
            && self.by.same(&other.by)
            && self.driver.same(&other.driver)
            && self.kind.same(&other.kind)
            && self.node_id.same(&other.node_id)
            && self.change_id.same(&other.change_id)
            && self.change_title.same(&other.change_title)
            && self.on_behalf_of.same(&other.on_behalf_of)
            && self.rows.same(&other.rows)
    }
}

impl Clone for HistoryEvent {
    fn clone(&self) -> (r: Self)
        ensures
            r.deep_view() == self.deep_view(),
    {
        self.dup()
    }
}

impl EventRow {
    /// A row with no source.
    pub fn new(marker: &str, text: &str) -> (r: Self)
        ensures
            r.deep_view() == (EventRowView { marker: marker@, text: text@, source: None }),
    {
        EventRow { marker: marker.to_owned(), text: text.to_owned(), source: None }
    }

    /// The row, pointing at `source`.
    pub fn with_source(self, source: SourceLocation) -> (r: Self)
        ensures
            r.deep_view() == (EventRowView { source: Some(source.deep_view()), ..self.deep_view() }),
    {
        EventRow { marker: self.marker, text: self.text, source: Some(source) }
    }
}

/// The name, trimmed, when there is anything left of it.
pub open spec fn named(s: Option<Seq<char>>) -> Option<Seq<char>> {
    match s {
        Some(a) if trimmed(a).len() > 0 => Some(trimmed(a)),
        _ => None,
    }
}

/// The name, trimmed, when there is anything left of it.
pub fn name_given(s: Option<&str>) -> (r: Option<String>)
    ensures
        r.deep_view() == named(crate::diff::ref_view(s)),
{
    match s {
        Some(a) => {
            let t = trim(a);
            if t.is_empty() {
                None
            } else {
                Some(t.to_owned())
            }
        },
        None => None,
    }
}

impl HistoryEvent {
    /// An event of the agent's, with no rows.
    pub fn new(at: u64, kind: EventKind, node_id: &str, driver: &str) -> (r: Self)
        ensures
            r.deep_view() == (HistoryEventView {
                at,
                by: "agent"@,
                driver: driver@,
                kind,
                node_id: node_id@,
                change_id: None,
                change_title: None,
                on_behalf_of: None,
                rows: Seq::empty(),
            }),
    {
        HistoryEvent {
            at,
            by: agent(),
            driver: driver.to_owned(),
            kind,
            node_id: node_id.to_owned(),
            change_id: None,
            change_title: None,
            on_behalf_of: None,
            rows: fresh(),
        }
    }

    /// The event with these rows.
    pub fn with_rows(self, rows: Vec<EventRow>) -> (r: Self)
        ensures
            r.deep_view() == (HistoryEventView { rows: rows.deep_view(), ..self.deep_view() }),
    {
        let mut e = self;
        e.rows = rows;
        e
    }

    /// The event of this change.
    pub fn with_change(self, change_id: &str) -> (r: Self)
        ensures
            r.deep_view() == (HistoryEventView { change_id: Some(change_id@), ..self.deep_view() }),
    {
        let mut e = self;
        e.change_id = Some(change_id.to_owned());
        e
    }

    /// The event of a change with this title.
    pub fn with_change_title(self, title: &str) -> (r: Self)
        ensures
            r.deep_view() == (HistoryEventView {
                change_title: Some(title@),
                ..self.deep_view()
            }),
    {
        let mut e = self;
        e.change_title = Some(title.to_owned());
        e
    }

    /// The event by this actor; without a name it stays as it is.
    pub fn by_actor(self, actor: Option<&str>) -> (r: Self)
        ensures
            r.deep_view() == (match named(crate::diff::ref_view(actor)) {
                Some(a) => HistoryEventView { by: a, ..self.deep_view() },
                None => self.deep_view(),
            }),
    {
        let mut e = self;
        match name_given(actor) {
            Some(a) => {
                e.by = a;
            },
            None => {},
        }
        e
    }

    /// The event on behalf of this person; without a name it stays as it is.
    pub fn for_person(self, person: Option<&str>) -> (r: Self)
        ensures
            r.deep_view() == (match named(crate::diff::ref_view(person)) {
                Some(a) => HistoryEventView { on_behalf_of: Some(a), ..self.deep_view() },
                None => self.deep_view(),
            }),
    {
        let mut e = self;
        match name_given(person) {
            Some(a) => {
                e.on_behalf_of = Some(a);
            },
            None => {},
        }
        e
    }
}

/// The writer when none is named.
pub fn agent() -> (r: String)
    ensures
        r@ == "agent"@,
{
    "agent".to_owned()
}

} // verus!
