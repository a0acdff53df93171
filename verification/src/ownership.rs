//! Ownership: which node a file belongs to.
//!
//! A boundary is a glob over project-relative paths. Of the boundaries that match
//! a file the most specific one wins, by a single ranking that every decision on
//! ownership shares.

use crate::model::{
    chain, chain_of, find_last_node, last_node, lemma_lookups, lemma_unseen_shrinks, unseen, Node,
    NodeView, Responsibility, ResponsibilityView, ScryModel, ScryModelView, Source, SourceLocation,
    SourceLocationView, SourceView,
};
use crate::modelled::{at, fresh, put, Modelled};
use crate::strmap::StrMap;
use crate::text::{ascending, chars_of, holds, same_text};
use vstd::prelude::*;
use vstd::string::*;

verus! {

// ---- globs ------------------------------------------------------------------------

/// Is a path or a pattern written with `/` alone?
pub open spec fn slashed(s: Seq<char>) -> bool {
    !s.contains('\\')
}

/// Is a path or a pattern written with `/` alone?
pub fn is_slashed(s: &str) -> (r: bool)
    ensures
        r == slashed(s@),
{
    let v = chars_of(s);
    let mut i: usize = 0;
    while i < v.len()
        invariant
            i <= v@.len(),
            v@ == s@,
            forall|j: int| 0 <= j < i ==> s@[j] != '\\',
        decreases v@.len() - i,
    {
        if v[i] == '\\' {
            assert(s@[i as int] == '\\');
            return false;
        }
        i += 1;
    }
    true
}

/// Has a character a meaning of its own in a glob?
pub open spec fn is_meta(c: char) -> bool {
    c == '*' || c == '?' || c == '['
}

/// Is a pattern a plain path?
pub open spec fn plain(pattern: Seq<char>) -> bool {
    forall|i: int| 0 <= i < pattern.len() ==> !is_meta(#[trigger] pattern[i])
}

/// What `glob` makes of a pattern and a path: nothing where the pattern is
/// malformed, else whether the pattern matches the whole path.
pub uninterp spec fn glob_verdict(pattern: Seq<char>, file: Seq<char>) -> Option<bool>;

/// `glob::Pattern::new`, and `glob::Pattern::matches` on what it compiled. The
/// answer depends on the two texts alone as long as neither holds a backslash,
/// which is a path separator on some platforms and a plain character on others.
/// A pattern without metacharacters is well-formed and matches itself alone.
#[verifier::external_body]
fn glob_match(pattern: &str, file: &str) -> (r: Option<bool>)
    requires
        slashed(pattern@),
        slashed(file@),
    ensures
        r == glob_verdict(pattern@, file@),
        plain(pattern@) ==> r == Some(pattern@ == file@),
{
    match glob::Pattern::new(pattern) {
        Ok(p) => Some(p.matches(file)),
        Err(_) => None,
    }
}

/// Does a glob match the file? A malformed one matches nothing.
pub open spec fn matched(pattern: Seq<char>, file: Seq<char>) -> bool {
    glob_verdict(pattern, file) == Some(true)
}

/// Does a glob match the file? A malformed one matches nothing.
pub fn glob_covers(pattern: &str, file: &str) -> (r: bool)
    requires
        slashed(pattern@),
        slashed(file@),
    ensures
        r == matched(pattern@, file@),
        plain(pattern@) ==> r == (pattern@ == file@),
{
    match glob_match(pattern, file) {
        Some(b) => b,
        None => false,
    }
}

// ---- the ranking ------------------------------------------------------------------

/// How many characters stand before the first metacharacter.
pub open spec fn literal_prefix(p: Seq<char>) -> nat
    decreases p.len(),
{
    if p.len() == 0 || is_meta(p[0]) {
        0
    } else {
        1 + literal_prefix(p.drop_first())
    }
}

/// The rank of a glob: how far it reads literally, then its length.
pub open spec fn rank_of(pattern: Seq<char>) -> (nat, nat) {
    (literal_prefix(pattern), pattern.len())
}

/// Is the first rank the more specific one?
pub open spec fn outranks(a: (nat, nat), b: (nat, nat)) -> bool {
    a.0 > b.0 || (a.0 == b.0 && a.1 > b.1)
}

/// The rank of a glob: how far it reads literally, then its length. The greater
/// pair is the more specific pattern.
pub fn pattern_rank(pattern: &str) -> (r: (usize, usize))
    ensures
        (r.0 as nat, r.1 as nat) == rank_of(pattern@),
{
    let v = chars_of(pattern);
    let mut i: usize = 0;
    assert(v@.skip(0) =~= v@);
    while i < v.len() && !(v[i] == '*' || v[i] == '?' || v[i] == '[')
        invariant
            i <= v@.len(),
            i + literal_prefix(v@.skip(i as int)) == literal_prefix(v@),
        decreases v@.len() - i,
    {
        assert(v@.skip(i as int).drop_first() =~= v@.skip(i + 1));
        assert(v@.skip(i as int)[0] == v@[i as int]);
        i += 1;
    }
    proof {
        if i < v@.len() {
            assert(v@.skip(i as int)[0] == v@[i as int]);
        }
    }
    (i, v.len())
}

/// Is the first rank the more specific one?
pub fn ranks_above(a: (usize, usize), b: (usize, usize)) -> (r: bool)
    ensures
        r == outranks((a.0 as nat, a.1 as nat), (b.0 as nat, b.1 as nat)),
{
    a.0 > b.0 || (a.0 == b.0 && a.1 > b.1)
}

/// A net over everything is outranked by any pattern that begins literally, and
/// outranks none of them.
pub proof fn law_a_net_is_outranked(p: Seq<char>)
    requires
        literal_prefix(p) > 0,
    ensures
        outranks(rank_of(p), rank_of("**/*"@)),
        !outranks(rank_of("**/*"@), rank_of(p)),
{
    reveal_strlit("**/*");
    assert("**/*"@[0] == '*');
}

/// Of two ranks at most one is above the other, and what is above a rank that is
/// above a third is above the third.
pub proof fn law_ranks_are_ordered(a: (nat, nat), b: (nat, nat), c: (nat, nat))
    ensures
        !(outranks(a, b) && outranks(b, a)),
        outranks(a, b) && outranks(b, c) ==> outranks(a, c),
        outranks(a, b) || outranks(b, a) || a == b,
{
}

// ---- owners -----------------------------------------------------------------------

/// The boundary rows of one owner.
pub open spec fn rows_for(id: Seq<char>, sources: Seq<SourceView>) -> Seq<(Seq<char>, Seq<char>)> {
    Seq::new(sources.len(), |i: int| (id, sources[i].pattern))
}

/// The boundary rows of the owners in `keys` that are live, in order.
pub open spec fn rows_of(
    bs: Map<Seq<char>, Seq<SourceView>>,
    keys: Seq<Seq<char>>,
    live: Seq<Seq<char>>,
) -> Seq<(Seq<char>, Seq<char>)>
    decreases keys.len(),
{
    if keys.len() == 0 {
        Seq::empty()
    } else {
        let before = rows_of(bs, keys.drop_last(), live);
        let id = keys.last();
        if live.contains(id) {
            before + rows_for(id, bs[id])
        } else {
            before
        }
    }
}

/// The boundary rows of every live owner: owner and pattern.
pub open spec fn boundary_rows(
    bs: Map<Seq<char>, Seq<SourceView>>,
    live: Seq<Seq<char>>,
) -> Seq<(Seq<char>, Seq<char>)> {
    rows_of(bs, ascending(bs.dom()), live)
}

/// Do a row's pattern and the file match, with no matching row of a higher rank?
pub open spec fn wins(rows: Seq<(Seq<char>, Seq<char>)>, i: int, file: Seq<char>) -> bool {
    &&& matched(rows[i].1, file)
    &&& forall|j: int|
        0 <= j < rows.len() && matched((#[trigger] rows[j]).1, file) ==> !outranks(
            rank_of(rows[j].1),
            rank_of(rows[i].1),
        )
}

/// Does a node own the file: does one of its patterns match it, and none that
/// matches rank above that one?
pub open spec fn owned(rows: Seq<(Seq<char>, Seq<char>)>, id: Seq<char>, file: Seq<char>) -> bool {
    exists|i: int| 0 <= i < rows.len() && (#[trigger] rows[i]).0 == id && wins(rows, i, file)
}

/// Are the patterns of a set of boundaries written with `/` alone?
pub open spec fn boundaries_slashed(bs: Map<Seq<char>, Seq<SourceView>>) -> bool {
    forall|k: Seq<char>, i: int|
        #![trigger bs[k][i]]
        bs.contains_key(k) && 0 <= i < bs[k].len() ==> slashed(
            bs[k][i].pattern,
        )
}

/// Are the patterns of the rows written with `/` alone?
pub open spec fn rows_slashed(rows: Seq<(Seq<char>, Seq<char>)>) -> bool {
    forall|i: int| 0 <= i < rows.len() ==> slashed((#[trigger] rows[i]).1)
}

/// The boundaries of a model, ready to be asked.
#[derive(Debug, PartialEq, Eq)]
pub struct BoundaryOwnership {
    rows: Vec<(String, String)>,
}

impl DeepView for BoundaryOwnership {
    type V = Seq<(Seq<char>, Seq<char>)>;

    closed spec fn deep_view(&self) -> Seq<(Seq<char>, Seq<char>)> {
        self.rows.deep_view()
    }
}

/// The ids of the nodes, in order.
pub open spec fn node_ids(ns: Seq<NodeView>) -> Seq<Seq<char>> {
    Seq::new(ns.len(), |i: int| ns[i].id)
}

/// The ids of the nodes, in order.
pub fn ids_of(ns: &Vec<Node>) -> (r: Vec<String>)
    ensures
        r.deep_view() == node_ids(ns.deep_view()),
{
    let ghost vs = ns.deep_view();
    let mut out: Vec<String> = fresh();
    let mut i: usize = 0;
    assert(out.deep_view() =~= node_ids(vs).take(0));
    while i < ns.len()
        invariant
            i <= ns@.len(),
            vs == ns.deep_view(),
            out.deep_view() == node_ids(vs).take(i as int),
        decreases ns@.len() - i,
    {
        let n = at(ns, i);
        put(&mut out, n.id.clone());
        assert(node_ids(vs).take(i + 1) =~= node_ids(vs).take(i as int).push(vs[i as int].id));
        i += 1;
    }
    assert(node_ids(vs).take(vs.len() as int) =~= node_ids(vs));
    out
}

proof fn lemma_rows_slashed(
    bs: Map<Seq<char>, Seq<SourceView>>,
    keys: Seq<Seq<char>>,
    live: Seq<Seq<char>>,
)
    requires
        boundaries_slashed(bs),
        forall|i: int| 0 <= i < keys.len() ==> bs.contains_key(#[trigger] keys[i]),
    ensures
        rows_slashed(rows_of(bs, keys, live)),
    decreases keys.len(),
{
    if keys.len() > 0 {
        let d = keys.drop_last();
        let k = keys[keys.len() - 1];
        assert(bs.contains_key(k));
        assert forall|i: int| 0 <= i < d.len() implies bs.contains_key(#[trigger] d[i]) by {
            assert(d[i] == keys[i]);
        }
        lemma_rows_slashed(bs, d, live);
        let before = rows_of(bs, d, live);
        let rows = rows_of(bs, keys, live);
        assert forall|i: int| 0 <= i < rows.len() implies slashed((#[trigger] rows[i]).1) by {
            if i < before.len() {
                assert(rows[i] == before[i]);
            } else {
                assert(rows[i].1 == bs[k][i - before.len()].pattern);
            }
        }
    }
}

impl BoundaryOwnership {
    /// The boundaries of a model's own nodes. Entries whose node is gone take no
    /// part.
    pub fn new(model: &ScryModel) -> (r: Self)
        ensures
            r.deep_view() == boundary_rows(
                model.deep_view().boundaries,
                node_ids(model.deep_view().nodes),
            ),
    {
        let live = ids_of(&model.nodes);
        BoundaryOwnership::from_boundaries(&model.boundaries, &live)
    }

    /// The boundaries of the owners in `live`.
    pub fn from_boundaries(boundaries: &StrMap<Vec<Source>>, live: &Vec<String>) -> (r: Self)
        ensures
            r.deep_view() == boundary_rows(boundaries.deep_view(), live.deep_view()),
    {
        let ghost bs = boundaries.deep_view();
        let ghost ks = ascending(bs.dom());
        let ghost lv = live.deep_view();
        let n: usize = boundaries.len();
        let mut rows: Vec<(String, String)> = fresh();
        let mut i: usize = 0;
        assert(ks.take(0) =~= Seq::<Seq<char>>::empty());
        while i < n
            invariant
                i <= n == ks.len(),
                bs == boundaries.deep_view(),
                ks == ascending(bs.dom()),
                lv == live.deep_view(),
                rows.deep_view() == rows_of(bs, ks.take(i as int), lv),
            decreases n - i,
        {
            let id = boundaries.key_at(i);
            proof {
                assert(ks.take(i + 1).drop_last() =~= ks.take(i as int));
                assert(ks.take(i + 1).last() == id@);
            }
            if holds(live, id.as_str()) {
                let sources = boundaries.value_at(i);
                let ghost before = rows.deep_view();
                let ghost mine = rows_for(id@, sources.deep_view());
                let mut j: usize = 0;
                assert(before + mine.take(0) =~= before);
                while j < sources.len()
                    invariant
                        j <= sources@.len(),
                        mine == rows_for(id@, sources.deep_view()),
                        rows.deep_view() == before + mine.take(j as int),
                    decreases sources@.len() - j,
                {
                    let s = at(sources, j);
                    put(&mut rows, (id.clone(), s.pattern.clone()));
                    assert(mine.take(j + 1) =~= mine.take(j as int).push(mine[j as int]));
                    assert(before + mine.take(j + 1) =~= (before + mine.take(j as int)).push(
                        mine[j as int],
                    ));
                    j += 1;
                }
                assert(mine.take(mine.len() as int) =~= mine);
            }
            i += 1;
        }
        assert(ks.take(n as int) =~= ks);
        BoundaryOwnership { rows }
    }

    /// How many rows there are.
    pub fn len(&self) -> (n: usize)
        ensures
            n == self.deep_view().len(),
    {
        self.rows.len()
    }

    /// The `i`-th row: owner and pattern.
    pub fn row(&self, i: usize) -> (r: &(String, String))
        requires
            i < self.deep_view().len(),
        ensures
            r.deep_view() == self.deep_view()[i as int],
    {
        at(&self.rows, i)
    }

    /// Does the node own the file? Of the live boundaries that match it, one of
    /// the node's is as specific as any. Several nodes may tie.
    pub fn owns(&self, id: &str, file: &str) -> (r: bool)
        requires
            rows_slashed(self.deep_view()),
            slashed(file@),
        ensures
            r == owned(self.deep_view(), id@, file@),
    {
        let ghost rs = self.rows.deep_view();
        // The place of a matching row that none outranks.
        let mut best: Option<usize> = None;
        let mut i: usize = 0;
        while i < self.rows.len()
            invariant
                i <= self.rows@.len(),
                rs == self.rows.deep_view(),
                rows_slashed(rs),
                slashed(file@),
                match best {
                    Some(b) => b < i && matched(rs[b as int].1, file@) && forall|j: int|
                        0 <= j < i && matched((#[trigger] rs[j]).1, file@) ==> !outranks(
                            rank_of(rs[j].1),
                            rank_of(rs[b as int].1),
                        ),
                    None => forall|j: int| 0 <= j < i ==> !matched((#[trigger] rs[j]).1, file@),
                },
            decreases self.rows@.len() - i,
        {
            let row = at(&self.rows, i);
            assert(rs[i as int].1 == row.1@);
            if glob_covers(row.1.as_str(), file) {
                match best {
                    None => {
                        best = Some(i);
                    },
                    Some(b) => {
                        let lead = at(&self.rows, b);
                        assert(rs[b as int].1 == lead.1@);
                        if ranks_above(pattern_rank(row.1.as_str()), pattern_rank(lead.1.as_str())) {
                            best = Some(i);
                        }
                    },
                }
            }
            i += 1;
        }
        let lead = match best {
            None => {
                return false;
            },
            Some(b) => {
                assert(wins(rs, b as int, file@));
                b
            },
        };
        let top = pattern_rank(at(&self.rows, lead).1.as_str());
        i = 0;
        while i < self.rows.len()
            invariant
                i <= self.rows@.len(),
                rs == self.rows.deep_view(),
                rows_slashed(rs),
                slashed(file@),
                lead < rs.len(),
                wins(rs, lead as int, file@),
                (top.0 as nat, top.1 as nat) == rank_of(rs[lead as int].1),
                forall|j: int| 0 <= j < i && (#[trigger] rs[j]).0 == id@ ==> !wins(rs, j, file@),
            decreases self.rows@.len() - i,
        {
            let row = at(&self.rows, i);
            assert(rs[i as int].1 == row.1@ && rs[i as int].0 == row.0@);
            if same_text(row.0.as_str(), id) && glob_covers(row.1.as_str(), file) && !ranks_above(
                top,
                pattern_rank(row.1.as_str()),
            ) {
                assert(wins(rs, i as int, file@));
                return true;
            }
            proof {
                if wins(rs, i as int, file@) && rs[i as int].0 == id@ {
                    assert(matched(rs[lead as int].1, file@));
                    assert(!outranks(rank_of(rs[lead as int].1), rank_of(rs[i as int].1)));
                    assert(false);
                }
            }
            i += 1;
        }
        false
    }
}

/// The rows of a model whose boundaries are written with `/` are too.
pub proof fn lemma_boundary_rows_slashed(
    bs: Map<Seq<char>, Seq<SourceView>>,
    live: Seq<Seq<char>>,
)
    requires
        boundaries_slashed(bs),
        ascending(bs.dom()).to_set() == bs.dom(),
    ensures
        rows_slashed(boundary_rows(bs, live)),
{
    let ks = ascending(bs.dom());
    assert forall|i: int| 0 <= i < ks.len() implies bs.contains_key(#[trigger] ks[i]) by {
        assert(ks.to_set().contains(ks[i]));
    }
    lemma_rows_slashed(bs, ks, live);
}

proof fn lemma_best_row(rows: Seq<(Seq<char>, Seq<char>)>, file: Seq<char>, n: int) -> (b: int)
    requires
        0 <= n <= rows.len(),
        exists|i: int| 0 <= i < n && matched((#[trigger] rows[i]).1, file),
    ensures
        0 <= b < n,
        matched(rows[b].1, file),
        forall|j: int|
            0 <= j < n && matched((#[trigger] rows[j]).1, file) ==> !outranks(
                rank_of(rows[j].1),
                rank_of(rows[b].1),
            ),
    decreases n,
{
    let i = choose|i: int| 0 <= i < n && matched((#[trigger] rows[i]).1, file);
    if forall|j: int| 0 <= j < n - 1 ==> !matched((#[trigger] rows[j]).1, file) {
        i
    } else {
        let k = choose|k: int| 0 <= k < n - 1 && matched((#[trigger] rows[k]).1, file);
        assert(matched(rows[k].1, file));
        let b = lemma_best_row(rows, file, n - 1);
        if matched(rows[n - 1].1, file) && outranks(rank_of(rows[n - 1].1), rank_of(rows[b].1)) {
            n - 1
        } else {
            b
        }
    }
}

/// A file that some live boundary matches has an owner; one that none matches
/// has none.
pub proof fn law_matched_files_are_owned(rows: Seq<(Seq<char>, Seq<char>)>, file: Seq<char>)
    ensures
        (exists|i: int| 0 <= i < rows.len() && matched((#[trigger] rows[i]).1, file)) <==> (
        exists|id: Seq<char>| #[trigger] owned(rows, id, file)),
{
    if exists|i: int| 0 <= i < rows.len() && matched((#[trigger] rows[i]).1, file) {
        let b = lemma_best_row(rows, file, rows.len() as int);
        assert(wins(rows, b, file));
        assert(owned(rows, rows[b].0, file));
    }
    if exists|id: Seq<char>| #[trigger] owned(rows, id, file) {
        let id = choose|id: Seq<char>| #[trigger] owned(rows, id, file);
        let i = choose|i: int|
            0 <= i < rows.len() && (#[trigger] rows[i]).0 == id && wins(rows, i, file);
        assert(matched(rows[i].1, file));
    }
}

/// A contested file never falls to a pattern that another matching one outranks.
pub proof fn law_specific_boundaries_win(
    rows: Seq<(Seq<char>, Seq<char>)>,
    id: Seq<char>,
    file: Seq<char>,
    j: int,
)
    requires
        owned(rows, id, file),
        0 <= j < rows.len(),
        matched(rows[j].1, file),
    ensures
        exists|i: int|
            0 <= i < rows.len() && (#[trigger] rows[i]).0 == id && matched(rows[i].1, file)
                && !outranks(rank_of(rows[j].1), rank_of(rows[i].1)),
{
    let i = choose|i: int|
        0 <= i < rows.len() && (#[trigger] rows[i]).0 == id && wins(rows, i, file);
    assert(rows[i].0 == id && matched(rows[i].1, file) && !outranks(
        rank_of(rows[j].1),
        rank_of(rows[i].1),
    ));
}

// ---- lineage ----------------------------------------------------------------------

/// A node and its ancestors, nearest first.
pub open spec fn lineage(ns: Seq<NodeView>, id: Seq<char>) -> Seq<Seq<char>> {
    node_ids(chain(ns, Some(id), Seq::empty()))
}

/// The node's id and those of its ancestors, up to the root. Nothing for an id that
/// names no node.
pub fn node_ancestry(model: &ScryModel, id: &str) -> (r: Vec<String>)
    ensures
        r.deep_view() == lineage(model.deep_view().nodes, id@),
{
    let ghost vs = model.nodes.deep_view();
    let start: Option<String> = Some(id.to_owned());
    let up = chain_of(&model.nodes, &start);
    let ghost line = Seq::new(up@.len(), |k: int| vs[up@[k] as int]);
    let mut out: Vec<String> = fresh();
    let mut i: usize = 0;
    assert(node_ids(line).take(0) =~= Seq::<Seq<char>>::empty());
    while i < up.len()
        invariant
            i <= up@.len(),
            vs == model.nodes.deep_view(),
            line == Seq::new(up@.len(), |k: int| vs[up@[k] as int]),
            forall|k: int| 0 <= k < up@.len() ==> #[trigger] up@[k] < model.nodes@.len(),
            out.deep_view() == node_ids(line).take(i as int),
        decreases up@.len() - i,
    {
        assert(up@[i as int] < model.nodes@.len());
        let n = at(&model.nodes, up[i]);
        put(&mut out, n.id.clone());
        assert(node_ids(line).take(i + 1) =~= node_ids(line).take(i as int).push(
            line[i as int].id,
        ));
        i += 1;
    }
    assert(node_ids(line).take(line.len() as int) =~= node_ids(line));
    out
}

/// How many steps lead up from a node, by parents that exist, until the root or
/// until the way closes on itself.
pub open spec fn climb(ns: Seq<NodeView>, id: Seq<char>, seen: Seq<Seq<char>>) -> nat
    decreases unseen(ns, seen),
{
    if seen.contains(id) || last_node(ns, id) is None {
        0
    } else {
        let n = last_node(ns, id)->0;
        proof {
            lemma_lookups(ns, id);
            lemma_unseen_shrinks(ns, seen, id);
        }
        if n.parent_id is Some && last_node(ns, n.parent_id->0) is Some {
            1 + climb(ns, n.parent_id->0, seen.push(id))
        } else {
            0
        }
    }
}

/// How deep a node stands.
pub open spec fn depth(ns: Seq<NodeView>, id: Seq<char>) -> nat {
    climb(ns, id, Seq::empty())
}

/// How deep a node stands: the steps up to its root.
pub fn node_depth(model: &ScryModel, id: &str) -> (r: usize)
    ensures
        r == depth(model.deep_view().nodes, id@),
{
    let ghost vs = model.nodes.deep_view();
    let mut seen: Vec<String> = fresh();
    let mut cur: String = id.to_owned();
    loop
        invariant
            vs == model.nodes.deep_view(),
            seen@.len() + climb(vs, cur@, seen.deep_view()) == depth(vs, id@),
        decreases unseen(vs, seen.deep_view()),
    {
        if holds(&seen, cur.as_str()) {
            return seen.len();
        }
        match find_last_node(&model.nodes, cur.as_str()) {
            None => {
                return seen.len();
            },
            Some(i) => {
                proof {
                    lemma_lookups(vs, cur@);
                    lemma_unseen_shrinks(vs, seen.deep_view(), cur@);
                }
                let n = at(&model.nodes, i);
                match &n.parent_id {
                    None => {
                        return seen.len();
                    },
                    Some(p) => {
                        match find_last_node(&model.nodes, p.as_str()) {
                            None => {
                                return seen.len();
                            },
                            Some(_) => {
                                put(&mut seen, cur);
                                cur = p.clone();
                            },
                        }
                    },
                }
            },
        }
    }
}

// ---- the finest node at a location --------------------------------------------------

/// Does one of the anchors name the file exactly, and the symbol where one is
/// asked for?
pub open spec fn anchored_at(
    locs: Seq<SourceLocationView>,
    file: Seq<char>,
    symbol: Option<Seq<char>>,
) -> bool {
    exists|i: int|
        0 <= i < locs.len() && (#[trigger] locs[i]).pattern == file && (symbol is Some
            ==> locs[i].symbol == symbol)
}

/// Does the source map anchor `key` there?
pub open spec fn key_at(
    map: Map<Seq<char>, Seq<SourceLocationView>>,
    key: Seq<char>,
    file: Seq<char>,
    symbol: Option<Seq<char>>,
) -> bool {
    map.contains_key(key) && anchored_at(map[key], file, symbol)
}

/// Does the source map anchor one of the claims there?
pub open spec fn claims_at(
    map: Map<Seq<char>, Seq<SourceLocationView>>,
    rs: Seq<ResponsibilityView>,
    file: Seq<char>,
    symbol: Option<Seq<char>>,
) -> bool {
    exists|i: int| 0 <= i < rs.len() && key_at(map, (#[trigger] rs[i]).id, file, symbol)
}

/// The nodes that map the location, by their declaration or by one of their claims.
pub open spec fn mapping(
    map: Map<Seq<char>, Seq<SourceLocationView>>,
    ns: Seq<NodeView>,
    file: Seq<char>,
    symbol: Option<Seq<char>>,
) -> Seq<Seq<char>>
    decreases ns.len(),
{
    if ns.len() == 0 {
        Seq::empty()
    } else {
        let before = mapping(map, ns.drop_last(), file, symbol);
        let n = ns.last();
        if key_at(map, n.id, file, symbol) || claims_at(map, n.responsibilities, file, symbol) {
            before.push(n.id)
        } else {
            before
        }
    }
}

/// The nodes that map the file, narrowed to the symbol where any maps that.
pub open spec fn mappers(
    m: ScryModelView,
    file: Seq<char>,
    symbol: Option<Seq<char>>,
) -> Seq<Seq<char>> {
    let narrow = mapping(m.source_map, m.nodes, file, symbol);
    if narrow.len() > 0 {
        narrow
    } else {
        mapping(m.source_map, m.nodes, file, None)
    }
}

/// The greatest depth among the nodes.
pub open spec fn top_depth(ns: Seq<NodeView>, ids: Seq<Seq<char>>) -> nat
    decreases ids.len(),
{
    if ids.len() == 0 {
        0
    } else {
        let before = top_depth(ns, ids.drop_last());
        let d = depth(ns, ids.last());
        if d > before {
            d
        } else {
            before
        }
    }
}

/// The nodes that stand at a depth.
pub open spec fn at_depth(ns: Seq<NodeView>, ids: Seq<Seq<char>>, d: nat) -> Seq<Seq<char>>
    decreases ids.len(),
{
    if ids.len() == 0 {
        Seq::empty()
    } else if depth(ns, ids.last()) == d {
        at_depth(ns, ids.drop_last(), d).push(ids.last())
    } else {
        at_depth(ns, ids.drop_last(), d)
    }
}

/// Is `x` one of the nodes or an ancestor, for each of them?
pub open spec fn above_all(ns: Seq<NodeView>, ids: Seq<Seq<char>>, x: Seq<char>) -> bool {
    forall|i: int| 0 <= i < ids.len() ==> lineage(ns, #[trigger] ids[i]).contains(x)
}

/// The first of `line` that is above all of the nodes.
pub open spec fn meeting(
    ns: Seq<NodeView>,
    ids: Seq<Seq<char>>,
    line: Seq<Seq<char>>,
) -> Option<Seq<char>>
    decreases line.len(),
{
    if line.len() == 0 {
        None
    } else if above_all(ns, ids, line[0]) {
        Some(line[0])
    } else {
        meeting(ns, ids, line.drop_first())
    }
}

/// The finest node at a location: the deepest of those that map it, their nearest
/// common ancestor where several tie, and `fallback` where there is none.
pub open spec fn finest(
    m: ScryModelView,
    fallback: Seq<char>,
    file: Seq<char>,
    symbol: Option<Seq<char>>,
) -> Seq<char> {
    let all = mappers(m, file, symbol);
    let deepest = at_depth(m.nodes, all, top_depth(m.nodes, all));
    if deepest.len() == 0 {
        fallback
    } else {
        match meeting(m.nodes, deepest, lineage(m.nodes, deepest[0])) {
            Some(x) => x,
            None => fallback,
        }
    }
}

/// The text in an optional borrow.
pub open spec fn opt_text(o: Option<&str>) -> Option<Seq<char>> {
    match o {
        Some(s) => Some(s@),
        None => None,
    }
}

fn key_here(
    map: &StrMap<Vec<SourceLocation>>,
    key: &str,
    file: &str,
    symbol: Option<&str>,
) -> (r: bool)
    ensures
        r == key_at(map.deep_view(), key@, file@, opt_text(symbol)),
{
    let locs = match map.get(key) {
        None => {
            return false;
        },
        Some(locs) => locs,
    };
    let ghost ls = locs.deep_view();
    let mut i: usize = 0;
    while i < locs.len()
        invariant
            i <= locs@.len(),
            ls == locs.deep_view(),
            map.deep_view().contains_key(key@),
            map.deep_view()[key@] == ls,
            forall|j: int|
                0 <= j < i ==> !((#[trigger] ls[j]).pattern == file@ && (opt_text(symbol) is Some
                    ==> ls[j].symbol == opt_text(symbol))),
        decreases locs@.len() - i,
    {
        let l = at(locs, i);
        if same_text(l.pattern.as_str(), file) {
            let fits = match symbol {
                None => true,
                Some(want) => match &l.symbol {
                    Some(have) => same_text(have.as_str(), want),
                    None => false,
                },
            };
            if fits {
                assert(ls[i as int].pattern == file@);
                return true;
            }
        }
        i += 1;
    }
    false
}

fn claims_here(
    map: &StrMap<Vec<SourceLocation>>,
    rs: &Vec<Responsibility>,
    file: &str,
    symbol: Option<&str>,
) -> (r: bool)
    ensures
        r == claims_at(map.deep_view(), rs.deep_view(), file@, opt_text(symbol)),
{
    let ghost v = rs.deep_view();
    let mut i: usize = 0;
    while i < rs.len()
        invariant
            i <= rs@.len(),
            v == rs.deep_view(),
            forall|j: int|
                0 <= j < i ==> !key_at(
                    map.deep_view(),
                    (#[trigger] v[j]).id,
                    file@,
                    opt_text(symbol),
                ),
        decreases rs@.len() - i,
    {
        let r = at(rs, i);
        assert(v[i as int].id == r.id@);
        if key_here(map, r.id.as_str(), file, symbol) {
            return true;
        }
        i += 1;
    }
    false
}

fn mapping_nodes(model: &ScryModel, file: &str, symbol: Option<&str>) -> (r: Vec<String>)
    ensures
        r.deep_view() == mapping(
            model.deep_view().source_map,
            model.deep_view().nodes,
            file@,
            opt_text(symbol),
        ),
{
    let ghost vs = model.nodes.deep_view();
    let mut out: Vec<String> = fresh();
    let mut i: usize = 0;
    assert(vs.take(0) =~= Seq::<NodeView>::empty());
    while i < model.nodes.len()
        invariant
            i <= model.nodes@.len(),
            vs == model.nodes.deep_view(),
            out.deep_view() == mapping(
                model.source_map.deep_view(),
                vs.take(i as int),
                file@,
                opt_text(symbol),
            ),
        decreases model.nodes@.len() - i,
    {
        let n = at(&model.nodes, i);
        assert(vs.take(i + 1).drop_last() =~= vs.take(i as int));
        if key_here(&model.source_map, n.id.as_str(), file, symbol) || claims_here(
            &model.source_map,
            &n.responsibilities,
            file,
            symbol,
        ) {
            put(&mut out, n.id.clone());
        }
        i += 1;
    }
    assert(vs.take(vs.len() as int) =~= vs);
    out
}

/// Those of the nodes that stand deepest.
pub fn deepest_of(model: &ScryModel, ids: &Vec<String>) -> (r: Vec<String>)
    ensures
        r.deep_view() == at_depth(
            model.deep_view().nodes,
            ids.deep_view(),
            top_depth(model.deep_view().nodes, ids.deep_view()),
        ),
{
    let ghost ns = model.nodes.deep_view();
    let ghost v = ids.deep_view();
    let mut top: usize = 0;
    let mut i: usize = 0;
    assert(v.take(0) =~= Seq::<Seq<char>>::empty());
    while i < ids.len()
        invariant
            i <= ids@.len(),
            v == ids.deep_view(),
            ns == model.nodes.deep_view(),
            top == top_depth(ns, v.take(i as int)),
        decreases ids@.len() - i,
    {
        let id = at(ids, i);
        assert(v.take(i + 1).drop_last() =~= v.take(i as int));
        let d: usize = node_depth(model, id.as_str());
        if d > top {
            top = d;
        }
        i += 1;
    }
    assert(v.take(v.len() as int) =~= v);
    let mut out: Vec<String> = fresh();
    i = 0;
    while i < ids.len()
        invariant
            i <= ids@.len(),
            v == ids.deep_view(),
            ns == model.nodes.deep_view(),
            out.deep_view() == at_depth(ns, v.take(i as int), top as nat),
        decreases ids@.len() - i,
    {
        let id = at(ids, i);
        assert(v.take(i + 1).drop_last() =~= v.take(i as int));
        if node_depth(model, id.as_str()) == top {
            put(&mut out, id.clone());
        }
        i += 1;
    }
    assert(v.take(v.len() as int) =~= v);
    out
}

fn is_above_all(model: &ScryModel, ids: &Vec<String>, x: &str) -> (r: bool)
    ensures
        r == above_all(model.deep_view().nodes, ids.deep_view(), x@),
{
    let ghost ns = model.nodes.deep_view();
    let ghost v = ids.deep_view();
    let mut i: usize = 0;
    while i < ids.len()
        invariant
            i <= ids@.len(),
            v == ids.deep_view(),
            ns == model.nodes.deep_view(),
            forall|j: int| 0 <= j < i ==> lineage(ns, #[trigger] v[j]).contains(x@),
        decreases ids@.len() - i,
    {
        let id = at(ids, i);
        let line = node_ancestry(model, id.as_str());
        if !holds(&line, x) {
            assert(!lineage(ns, v[i as int]).contains(x@));
            return false;
        }
        i += 1;
    }
    true
}

/// The finest node at a location: the deepest of those that map the file exactly
/// (narrowed to the symbol where any maps that), their nearest common ancestor
/// where several tie, and `fallback` where there is none.
pub fn owning_node_for_location(
    model: &ScryModel,
    fallback: &str,
    file: &str,
    symbol: Option<&str>,
) -> (r: String)
    ensures
        r@ == finest(model.deep_view(), fallback@, file@, opt_text(symbol)),
{
    let ghost ns = model.nodes.deep_view();
    let narrow = mapping_nodes(model, file, symbol);
    let all = if narrow.len() > 0 {
        narrow
    } else {
        mapping_nodes(model, file, None)
    };
    let deepest = deepest_of(model, &all);
    if deepest.len() == 0 {
        return fallback.to_owned();
    }
    let line = node_ancestry(model, at(&deepest, 0).as_str());
    let ghost lv = line.deep_view();
    let ghost dv = deepest.deep_view();
    let ghost want = finest(model.deep_view(), fallback@, file@, opt_text(symbol));
    let mut i: usize = 0;
    assert(lv.skip(0) =~= lv);
    while i < line.len()
        invariant
            i <= line@.len(),
            lv == line.deep_view(),
            dv == deepest.deep_view(),
            ns == model.nodes.deep_view(),
            want == finest(model.deep_view(), fallback@, file@, opt_text(symbol)),
            want == match meeting(ns, dv, lv) {
                Some(x) => x,
                None => fallback@,
            },
            meeting(ns, dv, lv.skip(i as int)) == meeting(ns, dv, lv),
        decreases line@.len() - i,
    {
        let x = at(&line, i);
        assert(lv.skip(i as int)[0] == x@);
        assert(lv.skip(i as int).drop_first() =~= lv.skip(i + 1));
        if is_above_all(model, &deepest, x.as_str()) {
            return x.clone();
        }
        i += 1;
    }
    fallback.to_owned()
}

} // verus!
