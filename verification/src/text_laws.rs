//! What texts that are put together tell of their parts.

use crate::changes::{shown_title, ChangeMetaView};
use crate::model::{directive_line, directive_lines, DirectiveView};
use crate::text::{
    first_place, is_white, joined, lemma_first_exists, lemma_first_place, trimmed, trimmed_end,
    trimmed_start,
};
use vstd::prelude::*;
use vstd::string::*;

verus! {

/// What stands between two texts tells what was put there.
pub proof fn lemma_between(a: Seq<char>, x: Seq<char>, y: Seq<char>, b: Seq<char>)
    ensures
        a + x + b == a + y + b <==> x == y,
{
    let s = a + x + b;
    let t = a + y + b;
    if s == t {
        assert(s.len() == a.len() + x.len() + b.len());
        assert(t.len() == a.len() + y.len() + b.len());
        assert(x =~= s.subrange(a.len() as int, (a.len() + x.len()) as int));
        assert(y =~= t.subrange(a.len() as int, (a.len() + y.len()) as int));
    }
}

/// What a join has before a part.
spec fn joined_before(ps: Seq<Seq<char>>, k: int, sep: Seq<char>) -> Seq<char> {
    if k == 0 {
        Seq::empty()
    } else {
        joined(ps.take(k), sep) + sep
    }
}

/// What a join has behind a part.
spec fn joined_behind(ps: Seq<Seq<char>>, k: int, sep: Seq<char>) -> Seq<char> {
    if k == ps.len() - 1 {
        Seq::empty()
    } else {
        sep + joined(ps.skip(k + 1), sep)
    }
}

proof fn lemma_joined_around(ps: Seq<Seq<char>>, k: int, sep: Seq<char>)
    requires
        0 <= k < ps.len(),
    ensures
        joined(ps, sep) == joined_before(ps, k, sep) + ps[k] + joined_behind(ps, k, sep),
    decreases ps.len(),
{
    let d = ps.drop_last();
    let n = ps.len() - 1;
    if n == 0 {
        assert(joined(ps, sep) =~= joined_before(ps, k, sep) + ps[k] + joined_behind(ps, k, sep));
    } else if k == n {
        assert(ps.take(k) =~= d);
        assert(joined(ps, sep) =~= joined_before(ps, k, sep) + ps[k] + joined_behind(ps, k, sep));
    } else {
        lemma_joined_around(d, k, sep);
        assert(d.take(k) =~= ps.take(k));
        let s = ps.skip(k + 1);
        assert(s.drop_last() =~= d.skip(k + 1));
        assert(s.last() == ps.last());
        if s.len() == 1 {
            assert(joined(s, sep) == ps.last());
        }
        assert(joined(ps, sep) =~= joined_before(ps, k, sep) + ps[k] + joined_behind(ps, k, sep));
    }
}

/// A join tells each of its parts: of two lists that differ in one part at most, the joins are
/// the same exactly where that part is.
pub proof fn law_a_join_tells_each_part(
    ps: Seq<Seq<char>>,
    qs: Seq<Seq<char>>,
    sep: Seq<char>,
    k: int,
)
    requires
        ps.len() == qs.len(),
        0 <= k < ps.len(),
        forall|i: int| 0 <= i < ps.len() && i != k ==> ps[i] == qs[i],
    ensures
        joined(ps, sep) == joined(qs, sep) <==> ps[k] == qs[k],
{
    lemma_joined_around(ps, k, sep);
    lemma_joined_around(qs, k, sep);
    assert(ps.take(k) =~= qs.take(k));
    assert(ps.skip(k + 1) =~= qs.skip(k + 1));
    lemma_between(
        joined_before(ps, k, sep),
        ps[k],
        qs[k],
        joined_behind(ps, k, sep),
    );
}

/// A list that goes on is joined longer, by the separator and the parts that came.
pub proof fn law_a_join_grows(ps: Seq<Seq<char>>, x: Seq<char>, sep: Seq<char>)
    ensures
        joined(ps.push(x), sep) == if ps.len() == 0 {
            x
        } else {
            joined(ps, sep) + sep + x
        },
        joined(Seq::<Seq<char>>::empty(), sep).len() == 0,
{
    assert(ps.push(x).drop_last() =~= ps);
}

/// Directives read as their lines do: of two lists that differ in one directive at most, the
/// rendered texts are the same exactly where its text and its citations as they read are the
/// same.
pub proof fn law_directives_tell_each_other_apart(
    ds: Seq<DirectiveView>,
    es: Seq<DirectiveView>,
    k: int,
)
    requires
        ds.len() == es.len(),
        0 <= k < ds.len(),
        forall|i: int| 0 <= i < ds.len() && i != k ==> ds[i] == es[i],
    ensures
        ds[k].cites == es[k].cites ==> (directive_lines(ds) == directive_lines(es) <==> ds[k].text
            == es[k].text),
        ds[k].text == es[k].text && ds[k].cites.len() > 0 && es[k].cites.len() > 0 ==> (
        directive_lines(ds) == directive_lines(es) <==> joined(ds[k].cites, ", "@) == joined(
            es[k].cites,
            ", "@,
        )),
        ds[k].text == es[k].text && (ds[k].cites.len() == 0) != (es[k].cites.len() == 0)
            ==> directive_lines(ds) != directive_lines(es),
{
    reveal_strlit(" [cites: ");
    let ps = Seq::new(ds.len(), |i: int| directive_line(ds[i]));
    let qs = Seq::new(es.len(), |i: int| directive_line(es[i]));
    law_a_join_tells_each_part(ps, qs, "\n"@, k);
    let (d, e) = (ds[k], es[k]);
    let (c, f) = (joined(d.cites, ", "@), joined(e.cites, ", "@));
    if d.cites.len() > 0 && e.cites.len() > 0 {
        lemma_between(
            Seq::empty(),
            d.text,
            e.text,
            " [cites: "@ + c + "]"@,
        );
        assert(directive_line(d) =~= Seq::<char>::empty() + d.text + (" [cites: "@ + c + "]"@));
        if d.cites == e.cites {
            assert(directive_line(e) =~= Seq::<char>::empty() + e.text + (" [cites: "@ + c + "]"@));
        }
        lemma_between(d.text + " [cites: "@, c, f, "]"@);
        assert(directive_line(d) =~= (d.text + " [cites: "@) + c + "]"@);
        assert(directive_line(e) =~= (e.text + " [cites: "@) + f + "]"@);
    } else if d.cites.len() > 0 && d.text == e.text {
        assert(directive_line(d).len() > directive_line(e).len());
    } else if e.cites.len() > 0 && d.text == e.text {
        assert(directive_line(e).len() > directive_line(d).len());
    }
}

/// A list of directives that goes on reads longer: a line is added, and the first line is the
/// directive as it reads.
pub proof fn law_directives_are_read_in_order(ds: Seq<DirectiveView>, d: DirectiveView)
    ensures
        directive_lines(ds.push(d)) == if ds.len() == 0 {
            directive_lines(seq![d])
        } else {
            directive_lines(ds) + "\n"@ + directive_lines(seq![d])
        },
        d.cites.len() == 0 ==> directive_lines(seq![d]) == d.text,
        directive_lines(Seq::empty()).len() == 0,
{
    let ps = Seq::new(ds.len(), |i: int| directive_line(ds[i]));
    law_a_join_grows(ps, directive_line(d), "\n"@);
    assert(Seq::new(ds.push(d).len(), |i: int| directive_line(ds.push(d)[i])) =~= ps.push(
        directive_line(d),
    ));
    let one = Seq::new(seq![d].len(), |i: int| directive_line(seq![d][i]));
    assert(one.len() == 1 && one[0] == directive_line(d));
    assert(joined(one, "\n"@) == directive_line(d));
    let none = Seq::new(
        Seq::<DirectiveView>::empty().len(),
        |i: int| directive_line(Seq::<DirectiveView>::empty()[i]),
    );
    assert(none =~= Seq::<Seq<char>>::empty());
}

/// Trimming cuts white space off the two ends, all of it, and nothing else.
pub proof fn law_what_trimming_cuts_off(before: Seq<char>, s: Seq<char>, behind: Seq<char>)
    requires
        forall|i: int| 0 <= i < before.len() ==> is_white(#[trigger] before[i]),
        forall|i: int| 0 <= i < behind.len() ==> is_white(#[trigger] behind[i]),
        s.len() > 0 ==> !is_white(s[0]) && !is_white(s.last()),
    ensures
        trimmed(before + s + behind) == s,
{
    let t = s + behind;
    assert(before + s + behind =~= before + t);
    lemma_white_before(before, t);
    if s.len() > 0 {
        assert(t[0] == s[0]);
        assert(trimmed_start(t) == t);
        lemma_white_behind(s, behind);
    } else {
        assert(t =~= behind + Seq::<char>::empty());
        lemma_white_before(behind, Seq::empty());
        assert(s =~= Seq::empty());
    }
}

proof fn lemma_white_before(w: Seq<char>, s: Seq<char>)
    requires
        forall|i: int| 0 <= i < w.len() ==> is_white(#[trigger] w[i]),
    ensures
        trimmed_start(w + s) == trimmed_start(s),
    decreases w.len(),
{
    if w.len() == 0 {
        assert(w + s =~= s);
    } else {
        let t = w.drop_first();
        assert forall|i: int| 0 <= i < t.len() implies is_white(#[trigger] t[i]) by {
            assert(t[i] == w[i + 1]);
        }
        lemma_white_before(t, s);
        assert(is_white(w[0]));
        assert((w + s)[0] == w[0]);
        assert((w + s).drop_first() =~= t + s);
    }
}

proof fn lemma_white_behind(s: Seq<char>, w: Seq<char>)
    requires
        s.len() > 0,
        !is_white(s.last()),
        forall|i: int| 0 <= i < w.len() ==> is_white(#[trigger] w[i]),
    ensures
        trimmed_end(s + w) == s,
    decreases w.len(),
{
    if w.len() == 0 {
        assert(s + w =~= s);
    } else {
        let n = w.len() - 1;
        assert(is_white(w[n]));
        assert((s + w).last() == w[n]);
        assert((s + w).drop_last() =~= s + w.drop_last());
        lemma_white_behind(s, w.drop_last());
    }
}

/// A change is called by its title, and without one by the first line of its rationale that is
/// not blank.
pub proof fn law_what_a_change_is_called(
    m: ChangeMetaView,
    before: Seq<char>,
    line: Seq<char>,
    behind: Seq<char>,
    rest: Seq<char>,
)
    requires
        forall|i: int| 0 <= i < before.len() ==> is_white(#[trigger] before[i]),
        forall|i: int|
            0 <= i < behind.len() ==> is_white(#[trigger] behind[i]) && behind[i] != '\n',
        line.len() > 0,
        !line.contains('\n'),
        !is_white(line[0]),
        !is_white(line.last()),
        rest.len() > 0 ==> rest[0] == '\n',
    ensures
        m.title == Some(before + line + behind) ==> shown_title(m) == line,
        (m.title is None || trimmed(m.title->0).len() == 0) && m.rationale == before + line + behind
            + rest ==> shown_title(m) == line,
{
    law_what_trimming_cuts_off(before, line, behind);
    let t = line + behind + rest;
    let s = before + line + behind + rest;
    assert(s =~= before + t);
    lemma_white_before(before, t);
    assert(t[0] == line[0]);
    assert(trimmed_start(t) == t);
    let k = (line.len() + behind.len()) as int;
    let l = line + behind;
    assert(!l.contains('\n')) by {
        if l.contains('\n') {
            let i = choose|i: int| 0 <= i < l.len() && l[i] == '\n';
            if i < line.len() {
                assert(line[i] == '\n');
            } else {
                assert(behind[i - line.len()] == '\n');
            }
        }
    }
    if rest.len() > 0 {
        assert(t[k] == '\n');
        assert(t.take(k) =~= l);
        lemma_first_place(t, '\n', k);
    } else {
        assert(t =~= l);
    }
    lemma_white_behind(line, behind);
}

/// A text is split at the first of the characters it is split at.
pub proof fn law_the_first_place_is_the_first(s: Seq<char>, c: char)
    requires
        s.contains(c),
    ensures
        0 <= first_place(s, c) < s.len(),
        s[first_place(s, c)] == c,
        forall|i: int| 0 <= i < first_place(s, c) ==> #[trigger] s[i] != c,
{
    lemma_first_exists(s, c);
    let p = first_place(s, c);
    assert forall|i: int| 0 <= i < p implies #[trigger] s[i] != c by {
        assert(s.take(p)[i] == s[i]);
    }
}

} // verus!
