//! Rendering the resolved alias map as a Sieve script: destinations in
//! canonical-string order, forwards sorted the same way, fixed framing.

use vstd::prelude::*;
use vstd::multiset::Multiset;
use vstd::relations::{sorted_by, total_ordering};
use vstd::seq_lib::{lemma_sorted_unique, to_multiset_build, to_multiset_remove};
use vstd::string::StringExecFns;
use crate::addr::AliasEmailAddress;
use crate::map::{clone_addr_vec, AliasMap};
use crate::resolve::SpecAliasMap;
use crate::text::{str_le, str_le_exec, str_le_fn, lemma_str_le_connected, lemma_str_le_refl,
    lemma_str_le_total_ordering, lemma_str_le_trans};

verus! {

/// One `redirect :copy` action per forward, in order.
pub open spec fn script_redirects(fwds: Seq<Seq<char>>) -> Seq<char>
    decreases fwds.len(),
{
    if fwds.len() == 0 {
        Seq::empty()
    } else {
        script_redirects(fwds.drop_last()) + "    redirect :copy \""@ + fwds.last() + "\";\n"@
    }
}

/// The conditional branch of one destination, its forwards already sorted.
pub open spec fn script_branch(d: Seq<char>, fwds: Seq<char>) -> Seq<char> {
    "  if eval \"eq_ignore_case(envelope.to[i], '"@ + d
        + "')\" {\n    addheader \"Delivered-To\" \""@ + d + "\";\n"@ + fwds
        + "\n    deleteheader :index 1 :is \"Delivered-To\" \""@ + d
        + "\";\n    let \"redirected\" \"true\";\n  }\n"@
}

/// The branches of the given destinations, in the order given.
pub open spec fn script_branches(ks: Seq<Seq<char>>, m: SpecAliasMap) -> Seq<char>
    decreases ks.len(),
{
    if ks.len() == 0 {
        Seq::empty()
    } else {
        script_branches(ks.drop_last(), m) + script_branch(
            ks.last(),
            script_redirects(m[ks.last()].sort_by(str_le_fn())),
        )
    }
}

/// The destinations of the map in ascending canonical-string order.
pub open spec fn sorted_destinations(m: SpecAliasMap) -> Seq<Seq<char>> {
    m.dom().to_seq().sort_by(str_le_fn())
}

/// The whole script: fixed preamble, one branch per destination in order, the
/// pass-through fallback, the loop close and the final discard.
pub open spec fn spec_script(m: SpecAliasMap) -> Seq<char> {
    "require [\"variables\", \"copy\", \"vnd.stalwart.expressions\", \"envelope\", \"editheader\"];\n\nlet \"i\" \"0\";\nwhile \"i < count(envelope.to)\" {\n  let \"redirected\" \"false\";\n"@
        + script_branches(sorted_destinations(m), m)
        + "  if eval \"!redirected\" {\n    let \"destination\" \"envelope.to[i]\";\n    redirect :copy \"${destination}\";\n  }\n  let \"i\" \"i+1\";\n}\ndiscard;"@
}

/// Law: the script is a function of the alias map alone. Maps holding the
/// same destinations with the same forward lists render to byte-identical
/// scripts, whatever order they were built in: ordering comes only from
/// canonical-string comparison. With the exact postconditions of
/// `parse_alias_to_map` and `generate_sieve_script`, repeated runs over equal
/// alias sources therefore produce identical output.
pub proof fn lemma_script_deterministic(m1: SpecAliasMap, m2: SpecAliasMap)
    requires
        m1 =~= m2,
    ensures
        spec_script(m1) == spec_script(m2),
{
}

/// Two duplicate-free sequences over the same set carry the same multiset.
proof fn lemma_nodup_same_set_multiset(a: Seq<Seq<char>>, b: Seq<Seq<char>>)
    requires
        a.no_duplicates(),
        b.no_duplicates(),
        a.to_set() == b.to_set(),
    ensures
        a.to_multiset() == b.to_multiset(),
{
    broadcast use vstd::seq_lib::group_seq_properties;
    broadcast use vstd::seq_lib::group_to_multiset_ensures;

    a.lemma_multiset_has_no_duplicates();
    b.lemma_multiset_has_no_duplicates();
    assert forall|x: Seq<char>| a.to_multiset().count(x) == b.to_multiset().count(x) by {
        assert(a.contains(x) <==> a.to_set().contains(x));
        assert(b.contains(x) <==> b.to_set().contains(x));
        if a.contains(x) {
            assert(a.to_multiset().count(x) > 0);
            assert(b.to_multiset().count(x) > 0);
            assert(a.to_multiset().contains(x) && b.to_multiset().contains(x));
        } else {
            assert(a.to_multiset().count(x) == 0 && b.to_multiset().count(x) == 0);
        }
    }
    assert(a.to_multiset() =~= b.to_multiset());
}

/// The arbitrary sequence of a finite set repeats no element.
proof fn lemma_set_to_seq_no_dup(s: Set<Seq<char>>)
    requires
        s.finite(),
    ensures
        s.to_seq().no_duplicates(),
    decreases s.len(),
{
    broadcast use vstd::set_lib::group_set_properties;
    broadcast use vstd::set::group_set_axioms;
    broadcast use vstd::seq_lib::group_seq_properties;

    if s.len() != 0 {
        let x = s.choose();
        let rest = s.remove(x);
        lemma_set_to_seq_no_dup(rest);
        rest.lemma_to_seq_to_set_id();
        assert(s.to_seq() == Seq::<Seq<char>>::empty().push(x) + rest.to_seq());
        assert forall|j: int| 0 < j < s.to_seq().len() implies s.to_seq()[j] != x by {
            assert(s.to_seq()[j] == rest.to_seq()[j - 1]);
            assert(rest.to_seq().contains(rest.to_seq()[j - 1]));
            assert(rest.to_seq().to_set().contains(rest.to_seq()[j - 1]));
        }
    }
}

/// Moving one occurrence from one side of a multiset sum to the other keeps
/// the sum.
proof fn lemma_multiset_transfer(
    a: Multiset<Seq<char>>,
    b: Multiset<Seq<char>>,
    t: Multiset<Seq<char>>,
    e: Seq<char>,
)
    requires
        a.add(b) == t,
        b.count(e) > 0,
    ensures
        a.insert(e).add(b.remove(e)) == t,
{
    broadcast use vstd::multiset::group_multiset_axioms;

    assert(a.insert(e).add(b.remove(e)) =~= t);
}

/// Sort addresses ascending by canonical string (selection sort).
fn sort_addresses(input: Vec<AliasEmailAddress>) -> (r: Vec<AliasEmailAddress>)
    ensures
        sorted_by(r.deep_view(), str_le_fn()),
        r.deep_view().to_multiset() == input.deep_view().to_multiset(),
{
    let ghost orig = input.deep_view();
    let mut src = input;
    let mut out: Vec<AliasEmailAddress> = Vec::new();
    proof {
        assert(out.deep_view() =~= Seq::<Seq<char>>::empty());
        assert(out.deep_view().to_multiset().add(src.deep_view().to_multiset())
            =~= orig.to_multiset()) by {
            broadcast use vstd::multiset::group_multiset_axioms;
            broadcast use vstd::seq_lib::group_to_multiset_ensures;

        }
    }
    while src.len() > 0
        invariant
            out.deep_view().to_multiset().add(src.deep_view().to_multiset()) == orig.to_multiset(),
            sorted_by(out.deep_view(), str_le_fn()),
            forall|x: int, y: int|
                0 <= x < out.deep_view().len() && 0 <= y < src.deep_view().len() ==> str_le(
                    #[trigger] out.deep_view()[x],
                    #[trigger] src.deep_view()[y],
                ),
        decreases src.len(),
    {
        let ghost dv = src.deep_view();
        let mut mi: usize = 0;
        let mut k: usize = 1;
        proof {
            lemma_str_le_refl(dv[0]);
        }
        while k < src.len()
            invariant
                dv == src.deep_view(),
                src@.len() == dv.len(),
                mi < k,
                k <= dv.len(),
                forall|j: int| 0 <= j < k ==> str_le(dv[mi as int], #[trigger] dv[j]),
            decreases dv.len() - k,
        {
            if str_le_exec(src[k].canonical(), src[mi].canonical()) {
                proof {
                    assert forall|j: int| 0 <= j < k + 1 implies str_le(
                        dv[k as int],
                        #[trigger] dv[j],
                    ) by {
                        if j < k {
                            lemma_str_le_trans(dv[k as int], dv[mi as int], dv[j]);
                        } else {
                            lemma_str_le_refl(dv[k as int]);
                        }
                    }
                }
                mi = k;
            } else {
                proof {
                    lemma_str_le_connected(dv[mi as int], dv[k as int]);
                }
            }
            k = k + 1;
        }
        let ghost out_dv = out.deep_view();
        let x = src.remove(mi);
        proof {
            to_multiset_remove(dv, mi as int);
            assert(src.deep_view() =~= dv.remove(mi as int));
            assert(x@ == dv[mi as int]);
        }
        out.push(x);
        proof {
            to_multiset_build(out_dv, dv[mi as int]);
            assert(out.deep_view() =~= out_dv.push(dv[mi as int]));
            assert(dv.to_multiset().count(dv[mi as int]) > 0) by {
                broadcast use vstd::seq_lib::group_to_multiset_ensures;

                assert(dv.contains(dv[mi as int]));
            }
            lemma_multiset_transfer(
                out_dv.to_multiset(),
                dv.to_multiset(),
                orig.to_multiset(),
                dv[mi as int],
            );
            assert(sorted_by(out.deep_view(), str_le_fn())) by {
                assert(forall|i: int|
                    0 <= i < out_dv.len() ==> str_le(#[trigger] out_dv[i], dv[mi as int]));
            }
            assert forall|x2: int, y: int|
                0 <= x2 < out.deep_view().len() && 0 <= y < src.deep_view().len() implies str_le(
                #[trigger] out.deep_view()[x2],
                #[trigger] src.deep_view()[y],
            ) by {
                let sv = src.deep_view();
                assert(sv[y] == if y < mi as int {
                    dv[y]
                } else {
                    dv[y + 1]
                });
                if x2 < out_dv.len() {
                } else {
                    assert(out.deep_view()[x2] == dv[mi as int]);
                }
            }
        }
    }
    proof {
        assert(src.deep_view() =~= Seq::<Seq<char>>::empty());
        assert(out.deep_view().to_multiset() =~= orig.to_multiset()) by {
            broadcast use vstd::multiset::group_multiset_axioms;
            broadcast use vstd::seq_lib::group_to_multiset_ensures;

        }
    }
    out
}

/// Render the resolved alias map as a Sieve script. The output is a function
/// of the map alone: destinations appear in ascending canonical order and
/// every forward list is re-sorted, so equal maps give byte-identical
/// scripts.
pub fn generate_sieve_script(redirects: AliasMap) -> (r: String)
    requires
        redirects.wf(),
    ensures
        r@ == spec_script(redirects@),
{
    let ghost m = redirects@;
    let ghost al = redirects.alist();
    let mut keys: Vec<AliasEmailAddress> = Vec::new();
    let n = redirects.len();
    let mut i: usize = 0;
    while i < n
        invariant
            redirects.wf(),
            m == redirects@,
            al == redirects.alist(),
            n == al.len(),
            i <= n,
            keys.deep_view().len() == i,
            forall|j: int| 0 <= j < i ==> keys.deep_view()[j] == al[j].0,
        decreases n - i,
    {
        let e = redirects.entry_at(i);
        let ghost before = keys.deep_view();
        keys.push(e.0.clone());
        proof {
            assert(keys.deep_view() =~= before.push(al[i as int].0));
        }
        i = i + 1;
    }
    let ghost kv = keys.deep_view();
    proof {
        crate::map::lemma_alist_to_map_dom(al);
        lemma_str_le_total_ordering();
        assert(kv.no_duplicates()) by {
            assert forall|p: int, q: int| 0 <= p < q < kv.len() implies kv[p] != kv[q] by {
                assert(kv[p] == al[p].0);
                assert(kv[q] == al[q].0);
            }
        }
        assert(keys.deep_view().to_set() =~= m.dom()) by {
            broadcast use vstd::seq_lib::group_seq_properties;

            assert forall|x: Seq<char>| keys.deep_view().to_set().contains(x) implies m.dom()
                .contains(x) by {
                let j = choose|j: int|
                    0 <= j < keys.deep_view().len() && keys.deep_view()[j] == x;
                assert(al[j].0 == x);
            }
            assert forall|x: Seq<char>| m.dom().contains(x) implies keys.deep_view()
                .to_set()
                .contains(x) by {
                let j = choose|j: int| 0 <= j < al.len() && al[j].0 == x;
                assert(keys.deep_view()[j] == x);
                assert(keys.deep_view().contains(x));
            }
        }
    }
    let sorted_keys = sort_addresses(keys);
    proof {
        let ts = m.dom().to_seq();
        m.dom().lemma_to_seq_to_set_id();
        lemma_set_to_seq_no_dup(m.dom());
        ts.lemma_sort_by_ensures(str_le_fn());
        lemma_nodup_same_set_multiset(kv, ts);
        lemma_sorted_unique(sorted_keys.deep_view(), ts.sort_by(str_le_fn()), str_le_fn());
        assert(sorted_keys.deep_view() == sorted_destinations(m));
    }
    let ghost sk = sorted_keys.deep_view();
    let mut script = String::new();
    script.append(
        "require [\"variables\", \"copy\", \"vnd.stalwart.expressions\", \"envelope\", \"editheader\"];\n\nlet \"i\" \"0\";\nwhile \"i < count(envelope.to)\" {\n  let \"redirected\" \"false\";\n",
    );
    let ghost pre = script@;
    proof {
        assert(sk.take(0) =~= Seq::<Seq<char>>::empty());
        assert(script@ =~= pre + script_branches(sk.take(0), m));
    }
    let nk = sorted_keys.len();
    let mut ki: usize = 0;
    while ki < nk
        invariant
            redirects.wf(),
            m == redirects@,
            sk == sorted_keys.deep_view(),
            sk == sorted_destinations(m),
            nk == sorted_keys@.len(),
            nk == sk.len(),
            ki <= nk,
            m.dom().finite(),
            script@ == pre + script_branches(sk.take(ki as int), m),
        decreases nk - ki,
    {
        let d = &sorted_keys[ki];
        proof {
            assert(d@ == sk[ki as int]);
            assert(m.dom().contains(d@)) by {
                broadcast use vstd::seq_lib::group_seq_properties;

                lemma_str_le_total_ordering();
                m.dom().lemma_to_seq_to_set_id();
                m.dom().to_seq().lemma_sort_by_ensures(str_le_fn());
                assert(sk.contains(sk[ki as int]));
                assert(sk.to_multiset().contains(sk[ki as int])) by {
                    broadcast use vstd::seq_lib::group_to_multiset_ensures;

                }
                assert(m.dom().to_seq().to_multiset().contains(sk[ki as int]));
                assert(m.dom().to_seq().contains(sk[ki as int])) by {
                    broadcast use vstd::seq_lib::group_to_multiset_ensures;

                }
                assert(m.dom().to_seq().to_set().contains(sk[ki as int]));
            }
        }
        let fv = match redirects.get(d) {
            Some(v) => v,
            None => vstd::pervasive::unreached(),
        };
        let fwds_sorted = sort_addresses(clone_addr_vec(fv));
        proof {
            lemma_str_le_total_ordering();
            m[d@].lemma_sort_by_ensures(str_le_fn());
            lemma_sorted_unique(
                fwds_sorted.deep_view(),
                m[d@].sort_by(str_le_fn()),
                str_le_fn(),
            );
            assert(fwds_sorted.deep_view() == m[d@].sort_by(str_le_fn()));
        }
        let ghost branch_start = script@;
        script.append("  if eval \"eq_ignore_case(envelope.to[i], '");
        script.append(d.canonical());
        script.append("')\" {\n    addheader \"Delivered-To\" \"");
        script.append(d.canonical());
        script.append("\";\n");
        let ghost red_start = script@;
        let ghost fs = fwds_sorted.deep_view();
        proof {
            assert(fs.take(0) =~= Seq::<Seq<char>>::empty());
            assert(script@ =~= red_start + script_redirects(fs.take(0)));
        }
        let nf = fwds_sorted.len();
        let mut fj: usize = 0;
        while fj < nf
            invariant
                fs == fwds_sorted.deep_view(),
                nf == fwds_sorted@.len(),
                nf == fs.len(),
                fj <= nf,
                script@ == red_start + script_redirects(fs.take(fj as int)),
            decreases nf - fj,
        {
            let f = &fwds_sorted[fj];
            script.append("    redirect :copy \"");
            script.append(f.canonical());
            script.append("\";\n");
            proof {
                let stepped = fs.take(fj + 1 as int);
                assert(stepped.drop_last() =~= fs.take(fj as int));
                assert(stepped.last() == fs[fj as int]);
                assert(f@ == fs[fj as int]);
                assert(script@ =~= red_start + script_redirects(stepped));
            }
            fj = fj + 1;
        }
        proof {
            assert(fs.take(nf as int) =~= fs);
        }
        script.append("\n    deleteheader :index 1 :is \"Delivered-To\" \"");
        script.append(d.canonical());
        script.append("\";\n    let \"redirected\" \"true\";\n  }\n");
        proof {
            let stepped = sk.take(ki + 1 as int);
            assert(stepped.drop_last() =~= sk.take(ki as int));
            assert(stepped.last() == sk[ki as int]);
            assert(script@ =~= branch_start + script_branch(d@, script_redirects(fs)));
            assert(script@ =~= pre + script_branches(stepped, m));
        }
        ki = ki + 1;
    }
    proof {
        assert(sk.take(nk as int) =~= sk);
    }
    script.append(
        "  if eval \"!redirected\" {\n    let \"destination\" \"envelope.to[i]\";\n    redirect :copy \"${destination}\";\n  }\n  let \"i\" \"i+1\";\n}\ndiscard;",
    );
    proof {
        assert(script@ =~= spec_script(m));
    }
    script
}

} // verus!
