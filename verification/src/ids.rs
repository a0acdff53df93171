//! Ids: `<prefix>-<six characters>`, drawn at random and checked against every
//! id in sight, so that two writers working from one snapshot do not collide.

use crate::model::{Group, Link, Node, Responsibility, ScryModel};
use crate::modelled::{at, fresh, put};
use crate::named::Named;
use crate::text::{cat3, chars_of, holds, strip_prefix};
use std::hash::BuildHasher;
use vstd::prelude::*;
use vstd::string::*;

verus! {

/// The symbols of a suffix: digits and lower-case letters without the
/// look-alikes.
pub const ALPHABET: &'static str = "0123456789abcdefghjkmnpqrstvwxyz";

/// How long a suffix is.
pub const SUFFIX_LEN: usize = 6;

/// `BuildHasher::hash_one` of a freshly keyed `RandomState`: some number, another
/// one at every call as a rule. Nothing is claimed of it.
#[verifier::external_body]
fn draw() -> (r: u64) {
    std::collections::hash_map::RandomState::new().hash_one(0u64)
}

/// The `d`-th symbol.
pub open spec fn symbol(d: int) -> char {
    ALPHABET@[d]
}

/// The first `n` base-32 digits of `bits`, lowest first, in symbols.
pub open spec fn spelled(bits: nat, n: nat) -> Seq<char>
    decreases n,
{
    if n == 0 {
        Seq::empty()
    } else {
        seq![symbol((bits % 32) as int)] + spelled(bits / 32, (n - 1) as nat)
    }
}

/// The id that a draw stands for.
pub open spec fn id_for(prefix: Seq<char>, bits: nat) -> Seq<char> {
    prefix + "-"@ + spelled(bits, SUFFIX_LEN as nat)
}

/// Is some id with this prefix still free?
pub open spec fn some_free(prefix: Seq<char>, taken: Seq<Seq<char>>) -> bool {
    exists|b: u64| !taken.contains(#[trigger] id_for(prefix, b as nat))
}

proof fn lemma_alphabet()
    ensures
        ALPHABET@.len() == 32,
        forall|i: int, j: int|
            0 <= i < 32 && 0 <= j < 32 && i != j ==> #[trigger] ALPHABET@[i]
                != #[trigger] ALPHABET@[j],
{
    reveal_strlit("0123456789abcdefghjkmnpqrstvwxyz");
    let a = ALPHABET@;
    assert(a =~= seq![
        '0', '1', '2', '3', '4', '5', '6', '7', '8', '9', 'a', 'b', 'c', 'd', 'e', 'f', 'g', 'h',
        'j', 'k', 'm', 'n', 'p', 'q', 'r', 's', 't', 'v', 'w', 'x', 'y', 'z',
    ]);
}

fn suffix(bits: u64) -> (r: String)
    ensures
        r@ == spelled(bits as nat, SUFFIX_LEN as nat),
{
    proof {
        lemma_alphabet();
    }
    let symbols = chars_of(ALPHABET);
    let mut s = String::new();
    let mut left: u64 = bits;
    let mut i: usize = 0;
    let ghost whole = spelled(bits as nat, SUFFIX_LEN as nat);
    assert(s@ + spelled(left as nat, SUFFIX_LEN as nat) =~= whole);
    while i < SUFFIX_LEN
        invariant
            i <= SUFFIX_LEN,
            symbols@ == ALPHABET@,
            symbols@.len() == 32,
            s@ + spelled(left as nat, (SUFFIX_LEN - i) as nat) == whole,
        decreases SUFFIX_LEN - i,
    {
        let ghost s0 = s@;
        let c = symbols[(left % 32) as usize];
        s.push(c);
        proof {
            let rest = spelled((left / 32) as nat, (SUFFIX_LEN - i - 1) as nat);
            assert(spelled(left as nat, (SUFFIX_LEN - i) as nat) == seq![c] + rest);
            assert(s0 + (seq![c] + rest) =~= s@ + rest);
        }
        left = left / 32;
        i += 1;
    }
    assert(s@ + Seq::<char>::empty() =~= s@);
    s
}

/// The id for one draw, unless it is taken.
pub fn id_from_draw(prefix: &str, taken: &Vec<String>, bits: u64) -> (r: Option<String>)
    ensures
        match r {
            Some(id) => id@ == id_for(prefix@, bits as nat) && !taken.deep_view().contains(id@),
            None => taken.deep_view().contains(id_for(prefix@, bits as nat)),
        },
{
    let id = cat3(prefix, "-", suffix(bits).as_str());
    if holds(taken, id.as_str()) {
        None
    } else {
        Some(id)
    }
}

proof fn lemma_low_bits(bits: nat, n: nat, m: nat)
    requires
        m == pow32(n),
    ensures
        spelled(bits % m, n) == spelled(bits, n),
    decreases n,
{
    if n > 0 {
        let k = pow32((n - 1) as nat);
        lemma_pow32(n);
        lemma_pow32((n - 1) as nat);
        assert(m == 32 * k);
        assert(k > 0);
        assert((bits % m) % 32 == bits % 32 && (bits % m) / 32 == (bits / 32) % k)
            by (nonlinear_arith)
            requires
                m == 32 * k,
                k > 0,
        {
            let q = bits / m;
            let r = bits % m;
            assert(bits == m * q + r && 0 <= r < m);
            assert(bits == 32 * (k * q) + r);
            vstd::arithmetic::div_mod::lemma_mod_multiples_vanish((k * q) as int, r as int, 32);
            vstd::arithmetic::div_mod::lemma_div_multiples_vanish_fancy(
                (k * q) as int,
                (r % 32) as int,
                32,
            );
            let a = r / 32;
            assert(r == 32 * a + r % 32);
            assert(a < k);
            assert(bits / 32 == k * q + a) by {
                vstd::arithmetic::div_mod::lemma_hoist_over_denominator(
                    r as int,
                    (k * q) as int,
                    32,
                );
            }
            vstd::arithmetic::div_mod::lemma_mod_multiples_vanish(q as int, a as int, k as int);
            vstd::arithmetic::div_mod::lemma_small_mod(a, k);
        }
        lemma_low_bits(bits / 32, (n - 1) as nat, k);
    }
}

/// 32 to the power `n`.
spec fn pow32(n: nat) -> nat
    decreases n,
{
    if n == 0 {
        1
    } else {
        32 * pow32((n - 1) as nat)
    }
}

proof fn lemma_pow32(n: nat)
    ensures
        pow32(n) > 0,
    decreases n,
{
    if n > 0 {
        lemma_pow32((n - 1) as nat);
    }
}

/// Mints an id that is not taken, drawing at random; should luck run out, the
/// suffixes are tried one by one.
pub fn mint_id(prefix: &str, taken: &Vec<String>) -> (r: String)
    requires
        some_free(prefix@, taken.deep_view()),
    ensures
        !taken.deep_view().contains(r@),
        exists|b: u64| r@ == #[trigger] id_for(prefix@, b as nat),
{
    let mut tries: u32 = 0;
    while tries < 1000
        invariant
            tries <= 1000,
        decreases 1000 - tries,
    {
        match id_from_draw(prefix, taken, draw()) {
            Some(id) => {
                return id;
            },
            None => {},
        }
        tries += 1;
    }
    let mut b: u64 = 0;
    while b < 0x4000_0000
        invariant
            b <= 0x4000_0000,
            forall|c: u64|
                0 <= c < b ==> taken.deep_view().contains(#[trigger] id_for(prefix@, c as nat)),
        decreases 0x4000_0000 - b,
    {
        match id_from_draw(prefix, taken, b) {
            Some(id) => {
                return id;
            },
            None => {},
        }
        b += 1;
    }
    proof {
        let w = choose|w: u64| !taken.deep_view().contains(#[trigger] id_for(prefix@, w as nat));
        reveal_with_fuel(pow32, 7);
        assert(pow32(6) == 0x4000_0000);
        lemma_low_bits(w as nat, 6, 0x4000_0000);
        let c = (w % 0x4000_0000) as u64;
        assert(taken.deep_view().contains(id_for(prefix@, c as nat)));
        assert(false);
    }
    String::new()
}

/// Mints an id that is not among `existing`.
pub fn mint_id_from(prefix: &str, existing: Vec<String>) -> (r: String)
    requires
        some_free(prefix@, existing.deep_view()),
    ensures
        !existing.deep_view().contains(r@),
        exists|b: u64| r@ == #[trigger] id_for(prefix@, b as nat),
{
    mint_id(prefix, &existing)
}

/// A decimal digit?
pub open spec fn is_digit(c: char) -> bool {
    '0' <= c <= '9'
}

/// Has `id` the shape of a minted one: the prefix, a dash, and then either only
/// digits or six symbols?
pub open spec fn minted(id: Seq<char>, prefix: Seq<char>) -> bool {
    let head = prefix + "-"@;
    let rest = id.skip(head.len() as int);
    &&& head.is_prefix_of(id)
    &&& rest.len() > 0
    &&& {
        ||| forall|i: int| 0 <= i < rest.len() ==> is_digit(#[trigger] rest[i])
        ||| rest.len() == SUFFIX_LEN && forall|i: int|
            0 <= i < rest.len() ==> ALPHABET@.contains(#[trigger] rest[i])
    }
}

/// Has `id` the shape of a minted one? Sequential ids of an older scheme count.
pub fn is_minted_id(id: &str, prefix: &str) -> (r: bool)
    ensures
        r == minted(id@, prefix@),
{
    let head = crate::text::cat2(prefix, "-");
    match strip_prefix(id, head.as_str()) {
        None => false,
        Some(rest) => {
            proof {
                assert(id@.skip(head@.len() as int) =~= rest@);
                assert(head@ =~= id@.subrange(0, head@.len() as int));
            }
            let v = chars_of(rest);
            let symbols = chars_of(ALPHABET);
            if v.len() == 0 {
                return false;
            }
            let mut digits: bool = true;
            let mut spelled_out: bool = true;
            let mut i: usize = 0;
            while i < v.len()
                invariant
                    i <= v@.len(),
                    v@ == rest@,
                    symbols@ == ALPHABET@,
                    digits == forall|j: int| 0 <= j < i ==> is_digit(#[trigger] rest@[j]),
                    spelled_out == forall|j: int|
                        0 <= j < i ==> ALPHABET@.contains(#[trigger] rest@[j]),
                decreases v@.len() - i,
            {
                let c = v[i];
                if !('0' <= c && c <= '9') {
                    assert(!is_digit(rest@[i as int]));
                    digits = false;
                }
                if !has_char(&symbols, c) {
                    assert(!ALPHABET@.contains(rest@[i as int]));
                    spelled_out = false;
                }
                i += 1;
            }
            digits || (v.len() == SUFFIX_LEN && spelled_out)
        },
    }
}

fn has_char(v: &Vec<char>, c: char) -> (r: bool)
    ensures
        r == v@.contains(c),
{
    let mut i: usize = 0;
    while i < v.len()
        invariant
            i <= v@.len(),
            forall|j: int| 0 <= j < i ==> v@[j] != c,
        decreases v@.len() - i,
    {
        if v[i] == c {
            return true;
        }
        i += 1;
    }
    false
}

/// The names of the things in a list.
pub open spec fn names<T: Named>(s: Seq<T::V>) -> Seq<Seq<char>> {
    Seq::new(s.len(), |i: int| T::name_of(s[i]))
}

/// The names of the things in a list, behind those already in `out`.
pub fn add_names<T: Named>(out: &mut Vec<String>, v: &Vec<T>)
    ensures
        final(out).deep_view() == old(out).deep_view() + names::<T>(v.deep_view()),
{
    let ghost all = names::<T>(v.deep_view());
    let ghost start = out.deep_view();
    let mut i: usize = 0;
    assert(start + all.take(0) =~= start);
    while i < v.len()
        invariant
            i <= v@.len(),
            all == names::<T>(v.deep_view()),
            out.deep_view() == start + all.take(i as int),
        decreases v@.len() - i,
    {
        put(out, at(v, i).found_by().clone());
        assert(start + all.take(i + 1) =~= (start + all.take(i as int)).push(all[i as int]));
        i += 1;
    }
    assert(all.take(all.len() as int) =~= all);
}

/// A node id that no node of the model has.
pub fn next_node_id(model: &ScryModel) -> (r: String)
    requires
        some_free("node"@, names::<Node>(model.deep_view().nodes)),
    ensures
        !names::<Node>(model.deep_view().nodes).contains(r@),
        exists|b: u64| r@ == #[trigger] id_for("node"@, b as nat),
{
    let mut taken: Vec<String> = fresh();
    add_names(&mut taken, &model.nodes);
    assert(taken.deep_view() =~= names::<Node>(model.deep_view().nodes));
    mint_id_from("node", taken)
}

/// The id of the link from `src` to `dst`.
pub fn make_link_id(src: &str, dst: &str) -> (r: String)
    ensures
        r@ == "link-"@ + src@ + "-"@ + dst@,
{
    let mut s = cat3("link-", src, "-");
    s.append(dst);
    s
}

/// A link id that no link of the model has.
pub fn next_link_id(model: &ScryModel) -> (r: String)
    requires
        some_free("link"@, names::<Link>(model.deep_view().links)),
    ensures
        !names::<Link>(model.deep_view().links).contains(r@),
        exists|b: u64| r@ == #[trigger] id_for("link"@, b as nat),
{
    let mut taken: Vec<String> = fresh();
    add_names(&mut taken, &model.links);
    assert(taken.deep_view() =~= names::<Link>(model.deep_view().links));
    mint_id_from("link", taken)
}

/// A group id that no group of the model has.
pub fn next_group_id(model: &ScryModel) -> (r: String)
    requires
        some_free("group"@, names::<Group>(model.deep_view().groups)),
    ensures
        !names::<Group>(model.deep_view().groups).contains(r@),
        exists|b: u64| r@ == #[trigger] id_for("group"@, b as nat),
{
    let mut taken: Vec<String> = fresh();
    add_names(&mut taken, &model.groups);
    assert(taken.deep_view() =~= names::<Group>(model.deep_view().groups));
    mint_id_from("group", taken)
}

/// A claim id that none of these claims has.
pub fn next_responsibility_id(existing: &Vec<Responsibility>) -> (r: String)
    requires
        some_free("resp"@, names::<Responsibility>(existing.deep_view())),
    ensures
        !names::<Responsibility>(existing.deep_view()).contains(r@),
        exists|b: u64| r@ == #[trigger] id_for("resp"@, b as nat),
{
    let mut taken: Vec<String> = fresh();
    add_names(&mut taken, existing);
    assert(taken.deep_view() =~= names::<Responsibility>(existing.deep_view()));
    mint_id_from("resp", taken)
}

/// A node id that neither layer has, so that the id of a node the plan deleted
/// is not issued again while committed still holds it.
pub fn next_node_id_union(planned: &ScryModel, committed: &ScryModel) -> (r: String)
    requires
        some_free(
            "node"@,
            names::<Node>(planned.deep_view().nodes) + names::<Node>(committed.deep_view().nodes),
        ),
    ensures
        !(names::<Node>(planned.deep_view().nodes) + names::<Node>(
            committed.deep_view().nodes,
        )).contains(r@),
        exists|b: u64| r@ == #[trigger] id_for("node"@, b as nat),
{
    let mut taken: Vec<String> = fresh();
    add_names(&mut taken, &planned.nodes);
    assert(taken.deep_view() =~= names::<Node>(planned.deep_view().nodes));
    add_names(&mut taken, &committed.nodes);
    mint_id_from("node", taken)
}

/// A group id that neither layer has.
pub fn next_group_id_union(planned: &ScryModel, committed: &ScryModel) -> (r: String)
    requires
        some_free(
            "group"@,
            names::<Group>(planned.deep_view().groups) + names::<Group>(
                committed.deep_view().groups,
            ),
        ),
    ensures
        !(names::<Group>(planned.deep_view().groups) + names::<Group>(
            committed.deep_view().groups,
        )).contains(r@),
        exists|b: u64| r@ == #[trigger] id_for("group"@, b as nat),
{
    let mut taken: Vec<String> = fresh();
    add_names(&mut taken, &planned.groups);
    assert(taken.deep_view() =~= names::<Group>(planned.deep_view().groups));
    add_names(&mut taken, &committed.groups);
    mint_id_from("group", taken)
}

// ---- laws ---------------------------------------------------------------------

proof fn lemma_spelled(bits: nat, n: nat)
    ensures
        spelled(bits, n).len() == n,
        forall|i: int| 0 <= i < n ==> ALPHABET@.contains(#[trigger] spelled(bits, n)[i]),
    decreases n,
{
    if n > 0 {
        lemma_alphabet();
        lemma_spelled(bits / 32, (n - 1) as nat);
        let rest = spelled(bits / 32, (n - 1) as nat);
        assert forall|i: int| 0 <= i < n implies ALPHABET@.contains(
            #[trigger] spelled(bits, n)[i],
        ) by {
            if i == 0 {
                assert(ALPHABET@[(bits % 32) as int] == spelled(bits, n)[0]);
            } else {
                assert(spelled(bits, n)[i] == rest[i - 1]);
            }
        }
    }
}

/// Every draw gives an id that reads as minted.
pub proof fn law_minted_ids_read_as_minted(prefix: Seq<char>, bits: nat)
    ensures
        minted(id_for(prefix, bits), prefix),
{
    lemma_spelled(bits, SUFFIX_LEN as nat);
    let head = prefix + "-"@;
    let id = id_for(prefix, bits);
    assert(id.skip(head.len() as int) =~= spelled(bits, SUFFIX_LEN as nat));
    assert(head =~= id.subrange(0, head.len() as int));
}

proof fn lemma_spelled_injective(a: nat, b: nat, n: nat)
    requires
        a < pow32(n),
        b < pow32(n),
        spelled(a, n) == spelled(b, n),
    ensures
        a == b,
    decreases n,
{
    if n > 0 {
        lemma_alphabet();
        lemma_spelled(a, n);
        lemma_spelled(b, n);
        let ra = spelled(a / 32, (n - 1) as nat);
        let rb = spelled(b / 32, (n - 1) as nat);
        assert(spelled(a, n)[0] == symbol((a % 32) as int));
        assert(spelled(b, n)[0] == symbol((b % 32) as int));
        assert(a % 32 == b % 32);
        assert(ra =~= spelled(a, n).drop_first());
        assert(rb =~= spelled(b, n).drop_first());
        lemma_spelled_injective(a / 32, b / 32, (n - 1) as nat);
    }
}

/// With fewer than 2^30 ids taken, one is free.
pub proof fn law_some_id_is_free(prefix: Seq<char>, taken: Seq<Seq<char>>)
    requires
        taken.len() < 0x4000_0000,
    ensures
        some_free(prefix, taken),
{
    if !some_free(prefix, taken) {
        reveal_with_fuel(pow32, 7);
        assert(pow32(6) == 0x4000_0000);
        let all = Seq::new(0x4000_0000, |i: int| id_for(prefix, i as nat));
        assert forall|i: int, j: int| 0 <= i < all.len() && 0 <= j < all.len() && i
            != j implies all[i] != all[j] by {
            if all[i] == all[j] {
                let k = (prefix + "-"@).len() as int;
                assert(all[i].skip(k) =~= spelled(i as nat, 6));
                assert(all[j].skip(k) =~= spelled(j as nat, 6));
                lemma_spelled_injective(i as nat, j as nat, 6);
            }
        }
        assert(all.no_duplicates());
        all.unique_seq_to_set();
        assert forall|x: Seq<char>| all.to_set().contains(x) implies taken.to_set().contains(x) by {
            let i = choose|i: int| 0 <= i < all.len() && all[i] == x;
            let b = i as u64;
            assert(taken.contains(id_for(prefix, b as nat)));
        }
        vstd::seq_lib::seq_to_set_is_finite(taken);
        vstd::set_lib::lemma_len_subset(all.to_set(), taken.to_set());
        taken.lemma_cardinality_of_set();
    }
}

} // verus!
