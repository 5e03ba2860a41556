//! Collapsing forward chains: bounded fixed-point iteration over the alias
//! map, with the round ceiling as the only cycle detection.

use vstd::prelude::*;
use vstd::pervasive::unreached;
use crate::addr::AliasEmailAddress;
use crate::map::{clone_addr_vec, AliasMap};
use crate::SieveError;

verus! {

/// Shorthand for the mathematical alias map.
pub type SpecAliasMap = Map<Seq<char>, Seq<Seq<char>>>;

/// The ceiling on resolution rounds.
pub const MAX_ROUNDS: usize = 100;

/// `cur` with every occurrence of `f` removed, order kept.
pub open spec fn without_addr(cur: Seq<Seq<char>>, f: Seq<char>) -> Seq<Seq<char>>
    decreases cur.len(),
{
    if cur.len() == 0 {
        Seq::empty()
    } else if cur.last() == f {
        without_addr(cur.drop_last(), f)
    } else {
        without_addr(cur.drop_last(), f).push(cur.last())
    }
}

/// One pass over a destination's old forward list: each forward that is
/// itself a destination is removed from the list being built and that
/// destination's own current forwards are appended.
pub open spec fn expand_forwards(
    cur: Seq<Seq<char>>,
    old_f: Seq<Seq<char>>,
    m: SpecAliasMap,
) -> Seq<Seq<char>>
    decreases old_f.len(),
{
    if old_f.len() == 0 {
        cur
    } else {
        let f = old_f[0];
        let cur2 = if m.dom().contains(f) {
            without_addr(cur, f) + m[f]
        } else {
            cur
        };
        expand_forwards(cur2, old_f.drop_first(), m)
    }
}

/// Whether some forward in the list is itself a destination of the map.
pub open spec fn has_key_forward(fs: Seq<Seq<char>>, m: SpecAliasMap) -> bool {
    exists|j: int| 0 <= j < fs.len() && m.dom().contains(#[trigger] fs[j])
}

/// The replacement lists one round gathers, walking the destination list in
/// order; a destination met twice is expanded from its gathered list.
pub open spec fn round_acc(m: SpecAliasMap, ds: Seq<Seq<char>>, acc: SpecAliasMap) -> SpecAliasMap
    decreases ds.len(),
{
    if ds.len() == 0 {
        acc
    } else {
        let d = ds[0];
        let base = if acc.dom().contains(d) {
            acc[d]
        } else {
            m[d]
        };
        round_acc(m, ds.drop_first(), acc.insert(d, expand_forwards(base, m[d], m)))
    }
}

/// The map after one resolution round.
pub open spec fn do_round(m: SpecAliasMap, ds: Seq<Seq<char>>) -> SpecAliasMap {
    m.union_prefer_right(round_acc(m, ds, Map::empty()))
}

/// Whether a round over `ds` would replace anything.
pub open spec fn round_changed(m: SpecAliasMap, ds: Seq<Seq<char>>) -> bool {
    exists|i: int| 0 <= i < ds.len() && has_key_forward(m[#[trigger] ds[i]], m)
}

/// A fixed point: no forward of any listed destination is itself a key.
pub open spec fn resolved(m: SpecAliasMap, ds: Seq<Seq<char>>) -> bool {
    !round_changed(m, ds)
}

/// The map after `n` resolution rounds.
pub open spec fn rounds(m: SpecAliasMap, ds: Seq<Seq<char>>, n: nat) -> SpecAliasMap
    decreases n,
{
    if n == 0 {
        m
    } else {
        rounds(do_round(m, ds), ds, (n - 1) as nat)
    }
}

/// All destinations of the list are keys of the map.
pub open spec fn dests_in_map(ds: Seq<Seq<char>>, m: SpecAliasMap) -> bool {
    forall|i: int| 0 <= i < ds.len() ==> m.dom().contains(#[trigger] ds[i])
}

proof fn lemma_expand_no_key(cur: Seq<Seq<char>>, fs: Seq<Seq<char>>, m: SpecAliasMap)
    requires
        !has_key_forward(fs, m),
    ensures
        expand_forwards(cur, fs, m) == cur,
    decreases fs.len(),
{
    if fs.len() > 0 {
        assert(!m.dom().contains(fs[0]));
        assert(!has_key_forward(fs.drop_first(), m)) by {
            assert(forall|j: int|
                0 <= j < fs.drop_first().len() ==> fs.drop_first()[j] == fs[j + 1]);
        }
        lemma_expand_no_key(cur, fs.drop_first(), m);
    }
}

proof fn lemma_round_acc_agrees(m: SpecAliasMap, ds: Seq<Seq<char>>, acc: SpecAliasMap)
    requires
        resolved(m, ds),
        dests_in_map(ds, m),
        forall|k: Seq<char>|
            #[trigger] acc.dom().contains(k) ==> m.dom().contains(k) && acc[k] == m[k],
    ensures
        forall|k: Seq<char>|
            #[trigger] round_acc(m, ds, acc).dom().contains(k) ==> m.dom().contains(k)
                && round_acc(m, ds, acc)[k] == m[k],
    decreases ds.len(),
{
    if ds.len() > 0 {
        let d = ds[0];
        let base = if acc.dom().contains(d) {
            acc[d]
        } else {
            m[d]
        };
        assert(base == m[d]);
        assert(!has_key_forward(m[d], m)) by {
            if has_key_forward(m[d], m) {
                assert(ds[0] == d);
                assert(round_changed(m, ds));
            }
        }
        lemma_expand_no_key(base, m[d], m);
        let acc2 = acc.insert(d, m[d]);
        assert(m.dom().contains(d));
        assert forall|k: Seq<char>| #[trigger] acc2.dom().contains(k) implies m.dom().contains(k)
            && acc2[k] == m[k] by {
            if k != d {
                assert(acc.dom().contains(k));
            }
        }
        assert(resolved(m, ds.drop_first())) by {
            assert(forall|i: int|
                0 <= i < ds.drop_first().len() ==> ds.drop_first()[i] == ds[i + 1]);
        }
        assert(dests_in_map(ds.drop_first(), m)) by {
            assert(forall|i: int|
                0 <= i < ds.drop_first().len() ==> ds.drop_first()[i] == ds[i + 1]);
        }
        lemma_round_acc_agrees(m, ds.drop_first(), acc2);
        let r_full = round_acc(m, ds, acc);
        assert(r_full == round_acc(m, ds.drop_first(), acc2));
        assert forall|k: Seq<char>| #[trigger] r_full.dom().contains(k) implies m.dom().contains(k)
            && r_full[k] == m[k] by {
            assert(round_acc(m, ds.drop_first(), acc2).dom().contains(k));
        }
    }
}

/// At a fixed point a round changes nothing.
pub proof fn lemma_resolved_identity(m: SpecAliasMap, ds: Seq<Seq<char>>)
    requires
        resolved(m, ds),
        dests_in_map(ds, m),
    ensures
        do_round(m, ds) == m,
{
    lemma_round_acc_agrees(m, ds, Map::empty());
    assert(do_round(m, ds) =~= m);
}

proof fn lemma_round_acc_dom(m: SpecAliasMap, ds: Seq<Seq<char>>, acc: SpecAliasMap)
    ensures
        forall|k: Seq<char>|
            round_acc(m, ds, acc).dom().contains(k) ==> acc.dom().contains(k) || ds.contains(k),
    decreases ds.len(),
{
    if ds.len() > 0 {
        let d = ds[0];
        let base = if acc.dom().contains(d) {
            acc[d]
        } else {
            m[d]
        };
        lemma_round_acc_dom(m, ds.drop_first(), acc.insert(d, expand_forwards(base, m[d], m)));
        assert(forall|k: Seq<char>| ds.drop_first().contains(k) ==> ds.contains(k)) by {
            assert(forall|j: int|
                0 <= j < ds.drop_first().len() ==> ds.drop_first()[j] == ds[j + 1]);
        }
        assert(ds.contains(d)) by {
            assert(ds[0] == d);
        }
    }
}

/// A round neither adds nor drops destinations.
pub proof fn lemma_do_round_dom(m: SpecAliasMap, ds: Seq<Seq<char>>)
    requires
        dests_in_map(ds, m),
    ensures
        do_round(m, ds).dom() == m.dom(),
{
    lemma_round_acc_dom(m, ds, Map::empty());
    assert forall|k: Seq<char>| #[trigger] do_round(m, ds).dom().contains(k) implies m.dom().contains(
        k,
    ) by {
        if !m.dom().contains(k) {
            assert(round_acc(m, ds, Map::empty()).dom().contains(k));
            assert(ds.contains(k));
            let i = choose|i: int| 0 <= i < ds.len() && ds[i] == k;
            assert(m.dom().contains(ds[i]));
        }
    }
    assert(do_round(m, ds).dom() =~= m.dom());
}

/// Unfolding `rounds` from the far end.
pub proof fn lemma_rounds_succ(m: SpecAliasMap, ds: Seq<Seq<char>>, n: nat)
    ensures
        rounds(m, ds, n + 1) == do_round(rounds(m, ds, n), ds),
    decreases n,
{
    if n == 0 {
        assert(rounds(m, ds, 1) == rounds(do_round(m, ds), ds, 0));
        assert(rounds(do_round(m, ds), ds, 0) == do_round(m, ds));
    } else {
        lemma_rounds_succ(do_round(m, ds), ds, (n - 1) as nat);
        assert(rounds(m, ds, n + 1) == rounds(do_round(m, ds), ds, n));
        assert(rounds(m, ds, n) == rounds(do_round(m, ds), ds, (n - 1) as nat));
    }
}

/// Destinations stay keys along the rounds.
pub proof fn lemma_rounds_dom(m: SpecAliasMap, ds: Seq<Seq<char>>, n: nat)
    requires
        dests_in_map(ds, m),
    ensures
        rounds(m, ds, n).dom() == m.dom(),
        dests_in_map(ds, rounds(m, ds, n)),
    decreases n,
{
    if n > 0 {
        lemma_do_round_dom(m, ds);
        lemma_rounds_dom(do_round(m, ds), ds, (n - 1) as nat);
    }
}

/// Once a fixed point is reached, later rounds keep it.
pub proof fn lemma_rounds_stable(m: SpecAliasMap, ds: Seq<Seq<char>>, n: nat, k: nat)
    requires
        n <= k,
        dests_in_map(ds, m),
        resolved(rounds(m, ds, n), ds),
    ensures
        rounds(m, ds, k) == rounds(m, ds, n),
        resolved(rounds(m, ds, k), ds),
    decreases k,
{
    if k > n {
        lemma_rounds_stable(m, ds, n, (k - 1) as nat);
        lemma_rounds_succ(m, ds, (k - 1) as nat);
        lemma_rounds_dom(m, ds, n);
        lemma_resolved_identity(rounds(m, ds, n), ds);
    }
}

/// A map a round leaves unchanged is unchanged by any number of rounds.
proof fn lemma_rounds_constant(m: SpecAliasMap, ds: Seq<Seq<char>>, n: nat)
    requires
        do_round(m, ds) == m,
    ensures
        rounds(m, ds, n) == m,
    decreases n,
{
    if n > 0 {
        lemma_rounds_constant(m, ds, (n - 1) as nat);
        assert(rounds(m, ds, n) == rounds(do_round(m, ds), ds, (n - 1) as nat));
    }
}

/// Law: resolving a three-node chain `a` to `b` to `c` of distinct addresses
/// reaches a fixed point in which `a` forwards straight to `c`; `b` is no
/// longer among `a`'s targets.
pub proof fn lemma_chain_collapses(a: Seq<char>, b: Seq<char>, c: Seq<char>)
    requires
        a != b,
        b != c,
        a != c,
    ensures
        ({
            let m = Map::<Seq<char>, Seq<Seq<char>>>::empty().insert(a, seq![b]).insert(
                b,
                seq![c],
            );
            let ds = seq![a, b];
            &&& resolved(rounds(m, ds, 98), ds)
            &&& rounds(m, ds, 98)[a] == seq![c]
            &&& rounds(m, ds, 98)[b] == seq![c]
        }),
{
    reveal_with_fuel(without_addr, 6);
    reveal_with_fuel(expand_forwards, 6);
    reveal_with_fuel(round_acc, 6);
    reveal_with_fuel(rounds, 4);
    let m = Map::<Seq<char>, Seq<Seq<char>>>::empty().insert(a, seq![b]).insert(b, seq![c]);
    let ds = seq![a, b];
    let m1 = Map::<Seq<char>, Seq<Seq<char>>>::empty().insert(a, seq![c]).insert(b, seq![c]);
    assert(dests_in_map(ds, m)) by {
        assert(ds[0] == a && ds[1] == b);
    }
    // the round on m: a's forward b is a key and becomes c; b's forward c is none
    assert(without_addr(seq![b], b) =~= Seq::<Seq<char>>::empty()) by {
        assert(seq![b].drop_last() =~= Seq::<Seq<char>>::empty());
    }
    assert(expand_forwards(seq![b], seq![b], m) =~= seq![c]) by {
        assert(seq![b][0] == b);
        assert(m.dom().contains(b));
        assert(without_addr(seq![b], b) + m[b] =~= seq![c]);
        assert(seq![b].drop_first() =~= Seq::<Seq<char>>::empty());
    }
    assert(!m.dom().contains(c));
    assert(expand_forwards(seq![c], seq![c], m) =~= seq![c]) by {
        assert(seq![c][0] == c);
        assert(seq![c].drop_first() =~= Seq::<Seq<char>>::empty());
    }
    let acc1 = Map::<Seq<char>, Seq<Seq<char>>>::empty().insert(a, seq![c]);
    let acc2 = acc1.insert(b, seq![c]);
    assert(do_round(m, ds) =~= m1) by {
        assert(ds[0] == a && ds[1] == b);
        assert(ds.drop_first() =~= seq![b]);
        assert(seq![b].drop_first() =~= Seq::<Seq<char>>::empty());
        assert(m[a] == seq![b] && m[b] == seq![c]);
        assert(!acc1.dom().contains(b));
        assert(round_acc(m, ds, Map::empty()) == round_acc(m, seq![b], acc1));
        assert(round_acc(m, seq![b], acc1) == round_acc(
            m,
            Seq::<Seq<char>>::empty(),
            acc2,
        ));
        assert(round_acc(m, Seq::<Seq<char>>::empty(), acc2) == acc2);
    }
    assert(resolved(m1, ds)) by {
        assert forall|i: int| 0 <= i < ds.len() implies !has_key_forward(
            m1[#[trigger] ds[i]],
            m1,
        ) by {
            assert(m1[ds[i]] == seq![c]);
            assert(forall|j: int| 0 <= j < seq![c].len() ==> seq![c][j] == c);
            assert(!m1.dom().contains(c));
        }
    }
    assert(rounds(m, ds, 1) == m1);
    lemma_rounds_stable(m, ds, 1, 98);
    assert(m1[a] == seq![c] && m1[b] == seq![c]);
}

/// Law: in a diamond `a` to `b` and `c`, both forwarding to `d`, resolution
/// reaches a fixed point in which `a` forwards to `d` twice, and neither `b`
/// nor `c` remains among `a`'s targets.
pub proof fn lemma_diamond_converges(a: Seq<char>, b: Seq<char>, c: Seq<char>, d: Seq<char>)
    requires
        a != b,
        a != c,
        a != d,
        b != c,
        b != d,
        c != d,
    ensures
        ({
            let m = Map::<Seq<char>, Seq<Seq<char>>>::empty().insert(a, seq![b, c]).insert(
                b,
                seq![d],
            ).insert(c, seq![d]);
            let ds = seq![a, b, c];
            &&& resolved(rounds(m, ds, 98), ds)
            &&& rounds(m, ds, 98)[a] == seq![d, d]
            &&& rounds(m, ds, 98)[b] == seq![d]
            &&& rounds(m, ds, 98)[c] == seq![d]
        }),
{
    reveal_with_fuel(without_addr, 6);
    reveal_with_fuel(expand_forwards, 6);
    reveal_with_fuel(round_acc, 6);
    reveal_with_fuel(rounds, 4);
    let m = Map::<Seq<char>, Seq<Seq<char>>>::empty().insert(a, seq![b, c]).insert(
        b,
        seq![d],
    ).insert(c, seq![d]);
    let ds = seq![a, b, c];
    let m1 = Map::<Seq<char>, Seq<Seq<char>>>::empty().insert(a, seq![d, d]).insert(
        b,
        seq![d],
    ).insert(c, seq![d]);
    assert(dests_in_map(ds, m)) by {
        assert(ds[0] == a && ds[1] == b && ds[2] == c);
    }
    // expanding a's list [b, c]: b gives [c, d], c in turn gives [d, d]
    assert(without_addr(seq![b, c], b) =~= seq![c]) by {
        assert(seq![b, c].drop_last() =~= seq![b]);
        assert(seq![b].drop_last() =~= Seq::<Seq<char>>::empty());
    }
    assert(without_addr(seq![c, d], c) =~= seq![d]) by {
        assert(seq![c, d].drop_last() =~= seq![c]);
        assert(seq![c].drop_last() =~= Seq::<Seq<char>>::empty());
    }
    assert(expand_forwards(seq![b, c], seq![b, c], m) =~= seq![d, d]) by {
        assert(seq![b, c][0] == b);
        assert(m.dom().contains(b));
        assert(without_addr(seq![b, c], b) + m[b] =~= seq![c, d]);
        assert(seq![b, c].drop_first() =~= seq![c]);
        assert(seq![c][0] == c);
        assert(m.dom().contains(c));
        assert(without_addr(seq![c, d], c) + m[c] =~= seq![d, d]);
        assert(seq![c].drop_first() =~= Seq::<Seq<char>>::empty());
        assert(expand_forwards(seq![d, d], Seq::<Seq<char>>::empty(), m) == seq![d, d]);
    }
    assert(!m.dom().contains(d));
    assert(expand_forwards(seq![d], seq![d], m) =~= seq![d]) by {
        assert(seq![d][0] == d);
        assert(seq![d].drop_first() =~= Seq::<Seq<char>>::empty());
    }
    let acc1 = Map::<Seq<char>, Seq<Seq<char>>>::empty().insert(a, seq![d, d]);
    let acc2 = acc1.insert(b, seq![d]);
    let acc3 = acc2.insert(c, seq![d]);
    assert(do_round(m, ds) =~= m1) by {
        assert(ds[0] == a && ds[1] == b && ds[2] == c);
        assert(ds.drop_first() =~= seq![b, c]);
        assert(seq![b, c].drop_first() =~= seq![c]);
        assert(seq![c].drop_first() =~= Seq::<Seq<char>>::empty());
        assert(m[a] == seq![b, c] && m[b] == seq![d] && m[c] == seq![d]);
        assert(!acc1.dom().contains(b));
        assert(!acc2.dom().contains(c));
        assert(round_acc(m, ds, Map::empty()) == round_acc(m, seq![b, c], acc1));
        assert(round_acc(m, seq![b, c], acc1) == round_acc(m, seq![c], acc2));
        assert(round_acc(m, seq![c], acc2) == round_acc(m, Seq::<Seq<char>>::empty(), acc3));
        assert(round_acc(m, Seq::<Seq<char>>::empty(), acc3) == acc3);
    }
    assert(resolved(m1, ds)) by {
        assert forall|i: int| 0 <= i < ds.len() implies !has_key_forward(
            m1[#[trigger] ds[i]],
            m1,
        ) by {
            assert(!m1.dom().contains(d));
            if i == 0 {
                assert(m1[ds[i]] == seq![d, d]);
                assert(forall|j: int| 0 <= j < seq![d, d].len() ==> seq![d, d][j] == d);
            } else {
                assert(m1[ds[i]] == seq![d]);
                assert(forall|j: int| 0 <= j < seq![d].len() ==> seq![d][j] == d);
            }
        }
    }
    assert(rounds(m, ds, 1) == m1);
    lemma_rounds_stable(m, ds, 1, 98);
    assert(m1[a] == seq![d, d] && m1[b] == seq![d] && m1[c] == seq![d]);
}

/// Law: a self-loop `a` forwarding to itself never reaches a fixed point
/// within the ceiling, so resolution reports infinite recursion.
pub proof fn lemma_self_loop_detected(a: Seq<char>)
    ensures
        ({
            let m = Map::<Seq<char>, Seq<Seq<char>>>::empty().insert(a, seq![a]);
            let ds = seq![a];
            !resolved(rounds(m, ds, 98), ds)
        }),
{
    reveal_with_fuel(without_addr, 6);
    reveal_with_fuel(expand_forwards, 6);
    reveal_with_fuel(round_acc, 6);
    reveal_with_fuel(rounds, 4);
    let m = Map::<Seq<char>, Seq<Seq<char>>>::empty().insert(a, seq![a]);
    let ds = seq![a];
    assert(without_addr(seq![a], a) =~= Seq::<Seq<char>>::empty()) by {
        assert(seq![a].drop_last() =~= Seq::<Seq<char>>::empty());
    }
    assert(expand_forwards(seq![a], seq![a], m) =~= seq![a]) by {
        assert(seq![a][0] == a);
        assert(m.dom().contains(a));
        assert(without_addr(seq![a], a) + m[a] =~= seq![a]);
        assert(seq![a].drop_first() =~= Seq::<Seq<char>>::empty());
    }
    let acc1 = Map::<Seq<char>, Seq<Seq<char>>>::empty().insert(a, seq![a]);
    assert(do_round(m, ds) =~= m) by {
        assert(ds[0] == a);
        assert(ds.drop_first() =~= Seq::<Seq<char>>::empty());
        assert(m[a] == seq![a]);
        assert(round_acc(m, ds, Map::empty()) == round_acc(
            m,
            Seq::<Seq<char>>::empty(),
            acc1,
        ));
    }
    lemma_rounds_constant(m, ds, 98);
    assert(!resolved(m, ds)) by {
        assert(m[ds[0]] == seq![a]);
        assert(m.dom().contains(seq![a][0]));
        assert(has_key_forward(m[ds[0]], m));
    }
}

/// Law: a two-address cycle `a` to `b` and `b` back to `a` never reaches a
/// fixed point within the ceiling, so resolution reports infinite recursion.
pub proof fn lemma_cycle_detected(a: Seq<char>, b: Seq<char>)
    requires
        a != b,
    ensures
        ({
            let m = Map::<Seq<char>, Seq<Seq<char>>>::empty().insert(a, seq![b]).insert(
                b,
                seq![a],
            );
            let ds = seq![a, b];
            !resolved(rounds(m, ds, 98), ds)
        }),
{
    reveal_with_fuel(without_addr, 6);
    reveal_with_fuel(expand_forwards, 6);
    reveal_with_fuel(round_acc, 6);
    reveal_with_fuel(rounds, 4);
    let m = Map::<Seq<char>, Seq<Seq<char>>>::empty().insert(a, seq![b]).insert(b, seq![a]);
    let ds = seq![a, b];
    let m1 = Map::<Seq<char>, Seq<Seq<char>>>::empty().insert(a, seq![a]).insert(b, seq![b]);
    assert(without_addr(seq![b], b) =~= Seq::<Seq<char>>::empty()) by {
        assert(seq![b].drop_last() =~= Seq::<Seq<char>>::empty());
    }
    assert(without_addr(seq![a], a) =~= Seq::<Seq<char>>::empty()) by {
        assert(seq![a].drop_last() =~= Seq::<Seq<char>>::empty());
    }
    assert(expand_forwards(seq![b], seq![b], m) =~= seq![a]) by {
        assert(seq![b][0] == b);
        assert(m.dom().contains(b));
        assert(without_addr(seq![b], b) + m[b] =~= seq![a]);
        assert(seq![b].drop_first() =~= Seq::<Seq<char>>::empty());
    }
    assert(expand_forwards(seq![a], seq![a], m) =~= seq![b]) by {
        assert(seq![a][0] == a);
        assert(m.dom().contains(a));
        assert(without_addr(seq![a], a) + m[a] =~= seq![b]);
        assert(seq![a].drop_first() =~= Seq::<Seq<char>>::empty());
    }
    let acc1 = Map::<Seq<char>, Seq<Seq<char>>>::empty().insert(a, seq![a]);
    let acc2 = acc1.insert(b, seq![b]);
    assert(do_round(m, ds) =~= m1) by {
        assert(ds[0] == a && ds[1] == b);
        assert(ds.drop_first() =~= seq![b]);
        assert(seq![b].drop_first() =~= Seq::<Seq<char>>::empty());
        assert(m[a] == seq![b] && m[b] == seq![a]);
        assert(!acc1.dom().contains(b));
        assert(round_acc(m, ds, Map::empty()) == round_acc(m, seq![b], acc1));
        assert(round_acc(m, seq![b], acc1) == round_acc(
            m,
            Seq::<Seq<char>>::empty(),
            acc2,
        ));
    }
    // from the second map on, each destination forwards to itself for ever
    assert(expand_forwards(seq![a], seq![a], m1) =~= seq![a]) by {
        assert(seq![a][0] == a);
        assert(m1.dom().contains(a));
        assert(without_addr(seq![a], a) + m1[a] =~= seq![a]);
        assert(seq![a].drop_first() =~= Seq::<Seq<char>>::empty());
    }
    assert(expand_forwards(seq![b], seq![b], m1) =~= seq![b]) by {
        assert(seq![b][0] == b);
        assert(m1.dom().contains(b));
        assert(without_addr(seq![b], b) + m1[b] =~= seq![b]);
        assert(seq![b].drop_first() =~= Seq::<Seq<char>>::empty());
    }
    let acc3 = Map::<Seq<char>, Seq<Seq<char>>>::empty().insert(a, seq![a]);
    let acc4 = acc3.insert(b, seq![b]);
    assert(do_round(m1, ds) =~= m1) by {
        assert(ds[0] == a && ds[1] == b);
        assert(ds.drop_first() =~= seq![b]);
        assert(seq![b].drop_first() =~= Seq::<Seq<char>>::empty());
        assert(m1[a] == seq![a] && m1[b] == seq![b]);
        assert(!acc3.dom().contains(b));
        assert(round_acc(m1, ds, Map::empty()) == round_acc(m1, seq![b], acc3));
        assert(round_acc(m1, seq![b], acc3) == round_acc(
            m1,
            Seq::<Seq<char>>::empty(),
            acc4,
        ));
    }
    lemma_rounds_constant(m1, ds, 97);
    assert(rounds(m, ds, 98) == rounds(m1, ds, 97)) by {
        assert(rounds(m, ds, 98) == rounds(do_round(m, ds), ds, 97));
    }
    assert(!resolved(m1, ds)) by {
        assert(m1[ds[0]] == seq![a]);
        assert(m1.dom().contains(seq![a][0]));
        assert(has_key_forward(m1[ds[0]], m1));
    }
}

/// `v` without the occurrences of `f`, as values.
fn filter_out_addr(v: &Vec<AliasEmailAddress>, f: &AliasEmailAddress) -> (r: Vec<
    AliasEmailAddress,
>)
    ensures
        r.deep_view() == without_addr(v.deep_view(), f@),
{
    let n = v.len();
    let mut r: Vec<AliasEmailAddress> = Vec::new();
    let mut i: usize = 0;
    while i < n
        invariant
            n == v@.len(),
            i <= n,
            r.deep_view() == without_addr(v.deep_view().take(i as int), f@),
        decreases n - i,
    {
        let ghost prefix = v.deep_view().take(i as int);
        let ghost step = v.deep_view().take(i + 1 as int);
        proof {
            assert(step =~= prefix.push(v.deep_view()[i as int]));
            assert(step.drop_last() =~= prefix);
        }
        if !v[i].same_as(f) {
            let ghost before = r.deep_view();
            r.push(v[i].clone());
            proof {
                assert(r.deep_view() =~= before.push(v.deep_view()[i as int]));
            }
        }
        i = i + 1;
    }
    proof {
        assert(v.deep_view().take(n as int) =~= v.deep_view());
    }
    r
}

/// Append copies of `extra` to `cur`.
fn extend_addrs(cur: &mut Vec<AliasEmailAddress>, extra: &Vec<AliasEmailAddress>)
    ensures
        final(cur).deep_view() == old(cur).deep_view() + extra.deep_view(),
{
    let n = extra.len();
    let mut i: usize = 0;
    while i < n
        invariant
            n == extra@.len(),
            i <= n,
            cur.deep_view() == old(cur).deep_view() + extra.deep_view().take(i as int),
        decreases n - i,
    {
        let ghost before = cur.deep_view();
        cur.push(extra[i].clone());
        proof {
            assert(cur.deep_view() =~= before.push(extra.deep_view()[i as int]));
            assert(old(cur).deep_view() + extra.deep_view().take(i + 1 as int) =~= before.push(
                extra.deep_view()[i as int],
            ));
        }
        i = i + 1;
    }
    proof {
        assert(extra.deep_view().take(n as int) =~= extra.deep_view());
    }
}

/// One round: gather the replacement lists and report whether any forward was
/// itself a destination.
fn run_round(map: &AliasMap, destinations: &Vec<AliasEmailAddress>) -> (r: (AliasMap, bool))
    requires
        map.wf(),
        dests_in_map(destinations.deep_view(), map@),
    ensures
        r.0.wf(),
        r.0@ == round_acc(map@, destinations.deep_view(), Map::empty()),
        r.1 == round_changed(map@, destinations.deep_view()),
{
    let ghost m = map@;
    let ghost ds = destinations.deep_view();
    let mut acc = AliasMap::new();
    let mut changed = false;
    let n = destinations.len();
    let mut idx: usize = 0;
    proof {
        assert(ds.skip(0) =~= ds);
    }
    while idx < n
        invariant
            map.wf(),
            acc.wf(),
            dests_in_map(ds, m),
            m == map@,
            ds == destinations.deep_view(),
            n == destinations@.len(),
            n == ds.len(),
            idx <= n,
            round_acc(m, ds, Map::empty()) == round_acc(m, ds.skip(idx as int), acc@),
            changed == exists|t: int| 0 <= t < idx && has_key_forward(m[#[trigger] ds[t]], m),
        decreases n - idx,
    {
        let d = &destinations[idx];
        proof {
            assert(ds[idx as int] == d@);
            assert(m.dom().contains(d@));
        }
        let old_f = match map.get(d) {
            Some(v) => v,
            None => unreached(),
        };
        let ghost old_fs = m[d@];
        proof {
            assert(old_f.deep_view() == old_fs);
        }
        let mut cur: Vec<AliasEmailAddress> = match acc.get(d) {
            Some(v) => clone_addr_vec(v),
            None => clone_addr_vec(old_f),
        };
        let ghost base = cur.deep_view();
        let nf = old_f.len();
        let mut j: usize = 0;
        let mut found = false;
        proof {
            assert(old_fs.skip(0) =~= old_fs);
        }
        while j < nf
            invariant
                map.wf(),
                m == map@,
                nf == old_fs.len(),
                old_f.deep_view() == old_fs,
                nf == old_f@.len(),
                j <= nf,
                dests_in_map(ds, m),
                expand_forwards(base, old_fs, m) == expand_forwards(
                    cur.deep_view(),
                    old_fs.skip(j as int),
                    m,
                ),
                found == exists|u: int| 0 <= u < j && m.dom().contains(#[trigger] old_fs[u]),
            decreases nf - j,
        {
            let f = &old_f[j];
            proof {
                assert(old_fs[j as int] == f@);
                assert(old_fs.skip(j as int)[0] == old_fs[j as int]);
                assert(old_fs.skip(j as int).drop_first() =~= old_fs.skip(j + 1 as int));
            }
            if map.contains_key(f) {
                found = true;
                cur = filter_out_addr(&cur, f);
                let extra = match map.get(f) {
                    Some(v) => v,
                    None => unreached(),
                };
                extend_addrs(&mut cur, extra);
            }
            j = j + 1;
        }
        proof {
            assert(old_fs.skip(nf as int) =~= Seq::<Seq<char>>::empty());
            assert(expand_forwards(base, old_fs, m) == cur.deep_view());
            assert(found == has_key_forward(old_fs, m));
        }
        if found {
            changed = true;
        }
        let ghost acc_before = acc@;
        acc.insert(d.clone(), cur);
        proof {
            assert(ds.skip(idx as int)[0] == ds[idx as int]);
            assert(ds.skip(idx as int).drop_first() =~= ds.skip(idx + 1 as int));
            let spec_base = if acc_before.dom().contains(d@) {
                acc_before[d@]
            } else {
                m[d@]
            };
            assert(base == spec_base);
            assert(round_acc(m, ds.skip(idx as int), acc_before) == round_acc(
                m,
                ds.skip(idx + 1 as int),
                acc_before.insert(d@, expand_forwards(spec_base, m[d@], m)),
            ));
            assert(changed == exists|t: int|
                0 <= t < idx + 1 && has_key_forward(m[#[trigger] ds[t]], m)) by {
                if found {
                    assert(has_key_forward(m[ds[idx as int]], m));
                }
            }
        }
        idx = idx + 1;
    }
    proof {
        assert(ds.skip(n as int) =~= Seq::<Seq<char>>::empty());
    }
    (acc, changed)
}

/// Overwrite every destination gathered by a round with its new forwards.
fn apply_acc(map: &mut AliasMap, acc: &AliasMap)
    requires
        old(map).wf(),
        acc.wf(),
    ensures
        final(map).wf(),
        final(map)@ == old(map)@.union_prefer_right(acc@),
{
    let ghost m0 = old(map)@;
    let n = acc.len();
    let mut i: usize = 0;
    while i < n
        invariant
            map.wf(),
            acc.wf(),
            n == acc.alist().len(),
            i <= n,
            map@ == m0.union_prefer_right(crate::map::alist_to_map(acc.alist().take(i as int))),
        decreases n - i,
    {
        let e = acc.entry_at(i);
        let kc = e.0.clone();
        let vc = clone_addr_vec(&e.1);
        let ghost before = map@;
        map.insert(kc, vc);
        proof {
            let pre = acc.alist().take(i as int);
            let step = acc.alist().take(i + 1 as int);
            assert(step.drop_last() =~= pre);
            assert(step.last() == acc.alist()[i as int]);
            assert(crate::map::alist_to_map(step) == crate::map::alist_to_map(pre).insert(
                acc.alist()[i as int].0,
                acc.alist()[i as int].1,
            ));
            assert(m0.union_prefer_right(crate::map::alist_to_map(step))
                =~= m0.union_prefer_right(crate::map::alist_to_map(pre)).insert(
                acc.alist()[i as int].0,
                acc.alist()[i as int].1,
            ));
        }
        i = i + 1;
    }
    proof {
        assert(acc.alist().take(n as int) =~= acc.alist());
    }
}

/// Iteratively replace forwards that are themselves destinations, up to a
/// fixed point; after `MAX_ROUNDS` rounds report infinite recursion.
///
/// The loop stops successfully only when a round finds nothing to replace,
/// and that confirming round counts against the ceiling too, so success is
/// exactly: the map two rounds short of the ceiling is a fixed point. Since
/// rounds are stable once a fixed point is reached, that map is
/// `rounds(m, ds, 98)`.
pub fn resolve(map: &mut AliasMap, destinations: &Vec<AliasEmailAddress>) -> (r: Result<
    (),
    SieveError,
>)
    requires
        old(map).wf(),
        dests_in_map(destinations.deep_view(), old(map)@),
    ensures
        final(map).wf(),
        ({
            let m0 = old(map)@;
            let ds = destinations.deep_view();
            match r {
                Ok(_) => resolved(rounds(m0, ds, 98), ds) && final(map)@ == rounds(m0, ds, 98),
                Err(e) => e == SieveError::InfiniteRecursion && !resolved(rounds(m0, ds, 98), ds),
            }
        }),
{
    let ghost m0 = old(map)@;
    let ghost ds = destinations.deep_view();
    let mut changed = true;
    let mut iterations: usize = 0;
    while changed && iterations < MAX_ROUNDS
        invariant
            map.wf(),
            dests_in_map(ds, m0),
            ds == destinations.deep_view(),
            iterations <= MAX_ROUNDS,
            map@ == rounds(m0, ds, iterations as nat),
            iterations == 0 ==> changed,
            iterations > 0 ==> changed == !resolved(rounds(m0, ds, (iterations - 1) as nat), ds),
            forall|n: int|
                0 <= n && n + 2 <= iterations ==> !resolved(
                    #[trigger] rounds(m0, ds, n as nat),
                    ds,
                ),
        decreases MAX_ROUNDS - iterations,
    {
        proof {
            lemma_rounds_dom(m0, ds, iterations as nat);
        }
        let (acc, ch) = run_round(map, destinations);
        apply_acc(map, &acc);
        proof {
            lemma_rounds_succ(m0, ds, iterations as nat);
        }
        changed = ch;
        iterations = iterations + 1;
    }
    if iterations == MAX_ROUNDS {
        assert(!resolved(rounds(m0, ds, 98), ds));
        Err(SieveError::InfiniteRecursion)
    } else {
        proof {
            assert(iterations > 0);
            assert(resolved(rounds(m0, ds, (iterations - 1) as nat), ds));
            lemma_rounds_stable(m0, ds, (iterations - 1) as nat, iterations as nat);
            lemma_rounds_stable(m0, ds, (iterations - 1) as nat, 98);
        }
        Ok(())
    }
}

} // verus!
