//! The claims that a fold last declined, and what each was declined for.
//!
//! A refusal disappears the moment the same claim folds, or leaves the plan; never by
//! hand.

use crate::modelled::{at, fresh, put, Modelled};
use crate::named::{has_named, there, Named};
use crate::text::holds;
use vstd::prelude::*;
use vstd::string::*;

verus! {

/// A claim that a fold declined to commit, and why.
#[derive(Debug, PartialEq)]
pub struct Refusal {
    pub resp_id: String,
    /// The node or group that hosts the claim.
    pub host_id: String,
    /// `no-test`, `no-verdict`, `stale`, `failing`, `amendment` or `addition`.
    pub kind: String,
    /// The missing fact in the fold's own words.
    pub reason: String,
    /// The test files whose run would clear the refusal.
    pub run: Vec<String>,
    /// Unix seconds.
    pub at: u64,
}

/// The model of a [`Refusal`].
#[verifier::ext_equal]
pub struct RefusalView {
    pub resp_id: Seq<char>,
    pub host_id: Seq<char>,
    pub kind: Seq<char>,
    pub reason: Seq<char>,
    pub run: Seq<Seq<char>>,
    pub at: u64,
}

impl DeepView for Refusal {
    type V = RefusalView;

    open spec fn deep_view(&self) -> RefusalView {
        RefusalView {
            resp_id: self.resp_id.deep_view(),
            host_id: self.host_id.deep_view(),
            kind: self.kind.deep_view(),
            reason: self.reason.deep_view(),
            run: self.run.deep_view(),
            at: self.at.deep_view(),
        }
    }
}

impl Modelled for Refusal {
    fn dup(&self) -> (r: Self) {
        Refusal {
            resp_id: self.resp_id.dup(),
            host_id: self.host_id.dup(),
            kind: self.kind.dup(),
            reason: self.reason.dup(),
            run: self.run.dup(),
            at: self.at.dup(),
        }
    }

    fn same(&self, other: &Self) -> (r: bool) {
        self.resp_id.same(&other.resp_id)
            && self.host_id.same(&other.host_id)
            && self.kind.same(&other.kind)
            && self.reason.same(&other.reason)
            && self.run.same(&other.run)
            && self.at.same(&other.at)
    }
}

impl Clone for Refusal {
    fn clone(&self) -> (r: Self)
        ensures
            r.deep_view() == self.deep_view(),
    {
        self.dup()
    }
}

impl Named for Refusal {
    open spec fn name_of(v: RefusalView) -> Seq<char> {
        v.resp_id
    }

    fn found_by(&self) -> (r: &String) {
        &self.resp_id
    }
}

/// The refusals that still stand: those of claims that were neither refused again nor
/// folded.
pub open spec fn standing(
    ledger: Seq<RefusalView>,
    refused: Seq<RefusalView>,
    folded: Seq<Seq<char>>,
) -> Seq<RefusalView>
    decreases ledger.len(),
{
    if ledger.len() == 0 {
        Seq::empty()
    } else {
        let before = standing(ledger.drop_last(), refused, folded);
        let x = ledger.last();
        if folded.contains(x.resp_id) || has_named::<Refusal>(refused, x.resp_id) {
            before
        } else {
            before.push(x)
        }
    }
}

/// The ledger after a fold: what still stands, then what was refused.
pub open spec fn after_fold(
    ledger: Seq<RefusalView>,
    refused: Seq<RefusalView>,
    folded: Seq<Seq<char>>,
) -> Seq<RefusalView> {
    standing(ledger, refused, folded) + refused
}

/// The refusals of claims that are live.
pub open spec fn of_live(ledger: Seq<RefusalView>, live: Seq<Seq<char>>) -> Seq<RefusalView>
    decreases ledger.len(),
{
    if ledger.len() == 0 {
        Seq::empty()
    } else if live.contains(ledger.last().resp_id) {
        of_live(ledger.drop_last(), live).push(ledger.last())
    } else {
        of_live(ledger.drop_last(), live)
    }
}

/// The ledger after a fold. The refusal of each claim in `refused` is recorded, in the
/// place of any it had; that of each claim in `folded` is cleared.
pub fn update_refusals(
    ledger: &Vec<Refusal>,
    refused: &Vec<Refusal>,
    folded: &Vec<String>,
) -> (r: Vec<Refusal>)
    ensures
        r.deep_view() == after_fold(ledger.deep_view(), refused.deep_view(), folded.deep_view()),
{
    let ghost v = ledger.deep_view();
    let ghost w = refused.deep_view();
    let ghost fv = folded.deep_view();
    let mut out: Vec<Refusal> = fresh();
    let mut i: usize = 0;
    assert(v.take(0) =~= Seq::<RefusalView>::empty());
    while i < ledger.len()
        invariant
            i <= ledger@.len(),
            v == ledger.deep_view(),
            w == refused.deep_view(),
            fv == folded.deep_view(),
            out.deep_view() == standing(v.take(i as int), w, fv),
        decreases ledger@.len() - i,
    {
        let x = at(ledger, i);
        assert(v.take(i + 1).drop_last() =~= v.take(i as int));
        if !holds(folded, x.resp_id.as_str()) && !there(refused, x.resp_id.as_str()) {
            put(&mut out, x.dup());
        }
        i += 1;
    }
    assert(v.take(v.len() as int) =~= v);
    let ghost kept = out.deep_view();
    let mut more = refused.dup();
    assert(more.deep_view() == w);
    out.append(&mut more);
    assert(out.deep_view() =~= kept + w);
    out
}

/// The ledger without the refusals of claims that are not in the plan any more.
pub fn prune_refusals(ledger: &Vec<Refusal>, live_resp_ids: &Vec<String>) -> (r: Vec<Refusal>)
    ensures
        r.deep_view() == of_live(ledger.deep_view(), live_resp_ids.deep_view()),
{
    let ghost v = ledger.deep_view();
    let ghost lv = live_resp_ids.deep_view();
    let mut out: Vec<Refusal> = fresh();
    let mut i: usize = 0;
    assert(v.take(0) =~= Seq::<RefusalView>::empty());
    while i < ledger.len()
        invariant
            i <= ledger@.len(),
            v == ledger.deep_view(),
            lv == live_resp_ids.deep_view(),
            out.deep_view() == of_live(v.take(i as int), lv),
        decreases ledger@.len() - i,
    {
        let x = at(ledger, i);
        assert(v.take(i + 1).drop_last() =~= v.take(i as int));
        if holds(live_resp_ids, x.resp_id.as_str()) {
            put(&mut out, x.dup());
        }
        i += 1;
    }
    assert(v.take(v.len() as int) =~= v);
    out
}

// ---- laws -----------------------------------------------------------------------------

proof fn lemma_standing(
    ledger: Seq<RefusalView>,
    refused: Seq<RefusalView>,
    folded: Seq<Seq<char>>,
)
    ensures
        forall|x: RefusalView| #[trigger]
            standing(ledger, refused, folded).contains(x) <==> ledger.contains(x)
                && !folded.contains(x.resp_id) && !has_named::<Refusal>(refused, x.resp_id),
    decreases ledger.len(),
{
    if ledger.len() > 0 {
        let d = ledger.drop_last();
        let l = ledger.last();
        lemma_standing(d, refused, folded);
        let before = standing(d, refused, folded);
        let all = standing(ledger, refused, folded);
        assert forall|x: RefusalView| #[trigger] all.contains(x) <==> ledger.contains(x)
            && !folded.contains(x.resp_id) && !has_named::<Refusal>(refused, x.resp_id) by {
            assert(before.contains(x) <==> d.contains(x) && !folded.contains(x.resp_id)
                && !has_named::<Refusal>(refused, x.resp_id));
            lemma_last_joins(ledger, x);
            if all.len() > before.len() {
                assert(all.drop_last() =~= before);
                lemma_last_joins(all, x);
            }
        }
    }
}

proof fn lemma_last_joins(s: Seq<RefusalView>, x: RefusalView)
    requires
        s.len() > 0,
    ensures
        s.contains(x) == (s.drop_last().contains(x) || s.last() == x),
{
    let d = s.drop_last();
    if d.contains(x) {
        let k = choose|k: int| 0 <= k < d.len() && d[k] == x;
        assert(s[k] == x);
    }
    assert(s[s.len() - 1] == s.last());
    if s.contains(x) && x != s.last() {
        let k = choose|k: int| 0 <= k < s.len() && s[k] == x;
        assert(d[k] == x);
    }
}

/// After a fold the ledger holds what was refused in it, and of the older refusals
/// exactly those of claims that were neither refused again nor folded. So a claim that
/// is refused again has the latest word alone, and one that folded has none.
pub proof fn law_the_latest_word_stands(
    ledger: Seq<RefusalView>,
    refused: Seq<RefusalView>,
    folded: Seq<Seq<char>>,
    x: RefusalView,
)
    ensures
        after_fold(ledger, refused, folded).contains(x) <==> refused.contains(x) || (
        ledger.contains(x) && !folded.contains(x.resp_id) && !has_named::<Refusal>(
            refused,
            x.resp_id,
        )),
{
    lemma_standing(ledger, refused, folded);
    let a = standing(ledger, refused, folded);
    let all = after_fold(ledger, refused, folded);
    if a.contains(x) {
        let k = choose|k: int| 0 <= k < a.len() && a[k] == x;
        assert(all[k] == x);
    }
    if refused.contains(x) {
        let k = choose|k: int| 0 <= k < refused.len() && refused[k] == x;
        assert(all[a.len() + k] == x);
    }
    if all.contains(x) {
        let k = choose|k: int| 0 <= k < all.len() && all[k] == x;
        if k < a.len() {
            assert(a[k] == x);
        } else {
            assert(refused[k - a.len()] == x);
        }
    }
}

/// Pruning keeps exactly the refusals of live claims.
pub proof fn law_no_refusal_of_a_ghost(
    ledger: Seq<RefusalView>,
    live: Seq<Seq<char>>,
    x: RefusalView,
)
    ensures
        of_live(ledger, live).contains(x) <==> ledger.contains(x) && live.contains(x.resp_id),
    decreases ledger.len(),
{
    if ledger.len() > 0 {
        law_no_refusal_of_a_ghost(ledger.drop_last(), live, x);
        lemma_last_joins(ledger, x);
        let before = of_live(ledger.drop_last(), live);
        let all = of_live(ledger, live);
        if all.len() > before.len() {
            assert(all.drop_last() =~= before);
            lemma_last_joins(all, x);
        }
    }
}

/// After a fold the ledger reads as it did, without what was refused again or folded, and then
/// what was refused.
pub proof fn law_the_ledger_keeps_its_order(
    ledger: Seq<RefusalView>,
    refused: Seq<RefusalView>,
    folded: Seq<Seq<char>>,
)
    ensures
        after_fold(ledger, refused, folded) == ledger.filter(
            |x: RefusalView|
                !folded.contains(x.resp_id) && !exists|k: int|
                    0 <= k < refused.len() && (#[trigger] refused[k]).resp_id == x.resp_id,
        ) + refused,
    decreases ledger.len(),
{
    reveal(Seq::filter);
    let f = |x: RefusalView|
        !folded.contains(x.resp_id) && !exists|k: int|
            0 <= k < refused.len() && (#[trigger] refused[k]).resp_id == x.resp_id;
    if ledger.len() > 0 {
        let d = ledger.drop_last();
        law_the_ledger_keeps_its_order(d, refused, folded);
        assert(after_fold(d, refused, folded).take(standing(d, refused, folded).len() as int)
            =~= standing(d, refused, folded));
        let g = d.filter(f);
        assert((g + refused).take(g.len() as int) =~= g);
        let x = ledger.last();
        if has_named::<Refusal>(refused, x.resp_id) {
            let k = choose|k: int|
                0 <= k < refused.len() && Refusal::name_of(#[trigger] refused[k]) == x.resp_id;
            assert(refused[k].resp_id == x.resp_id);
        }
        if exists|k: int| 0 <= k < refused.len() && (#[trigger] refused[k]).resp_id == x.resp_id {
            let k = choose|k: int|
                0 <= k < refused.len() && (#[trigger] refused[k]).resp_id == x.resp_id;
            assert(Refusal::name_of(refused[k]) == x.resp_id);
        }
    }
}

/// Pruning keeps the refusals of live claims in their order.
pub proof fn law_pruning_keeps_the_order(ledger: Seq<RefusalView>, live: Seq<Seq<char>>)
    ensures
        of_live(ledger, live) == ledger.filter(|x: RefusalView| live.contains(x.resp_id)),
    decreases ledger.len(),
{
    reveal(Seq::filter);
    if ledger.len() > 0 {
        law_pruning_keeps_the_order(ledger.drop_last(), live);
    }
}

} // verus!
