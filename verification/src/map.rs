//! The alias map: destination addresses and their forward lists, keyed by the
//! canonical address string, with unique keys.

use vstd::prelude::*;
use crate::addr::AliasEmailAddress;

verus! {

/// One alias source: its lines and the default domain completing bare local
/// parts from that source.
pub struct AliasFile {
    pub content: Vec<String>,
    pub default_domain: String,
}

impl View for AliasFile {
    type V = (Seq<Seq<char>>, Seq<char>);

    open spec fn view(&self) -> (Seq<Seq<char>>, Seq<char>) {
        (self.content.deep_view(), self.default_domain@)
    }
}

impl DeepView for AliasFile {
    type V = (Seq<Seq<char>>, Seq<char>);

    open spec fn deep_view(&self) -> (Seq<Seq<char>>, Seq<char>) {
        self.view()
    }
}

/// The mathematical map an association list denotes; later entries win.
pub open spec fn alist_to_map(s: Seq<(Seq<char>, Seq<Seq<char>>)>) -> Map<
    Seq<char>,
    Seq<Seq<char>>,
>
    decreases s.len(),
{
    if s.len() == 0 {
        Map::empty()
    } else {
        alist_to_map(s.drop_last()).insert(s.last().0, s.last().1)
    }
}

/// A map from destination address to its forward addresses.
pub struct AliasMap {
    entries: Vec<(AliasEmailAddress, Vec<AliasEmailAddress>)>,
}

impl View for AliasMap {
    type V = Map<Seq<char>, Seq<Seq<char>>>;

    open spec fn view(&self) -> Map<Seq<char>, Seq<Seq<char>>> {
        alist_to_map(self.alist())
    }
}

pub proof fn lemma_alist_to_map_dom(s: Seq<(Seq<char>, Seq<Seq<char>>)>)
    ensures
        alist_to_map(s).dom().finite(),
        forall|k: Seq<char>|
            alist_to_map(s).dom().contains(k) <==> exists|i: int|
                0 <= i < s.len() && #[trigger] s[i].0 == k,
    decreases s.len(),
{
    if s.len() == 0 {
    } else {
        lemma_alist_to_map_dom(s.drop_last());
        assert forall|k: Seq<char>| alist_to_map(s).dom().contains(k) implies exists|i: int|
            0 <= i < s.len() && #[trigger] s[i].0 == k by {
            if k == s.last().0 {
                assert(s[s.len() - 1].0 == k);
            } else {
                let i = choose|i: int| 0 <= i < s.drop_last().len() && #[trigger] s.drop_last()[i].0 == k;
                assert(s[i].0 == k);
            }
        }
        assert forall|k: Seq<char>|
            exists|i: int| 0 <= i < s.len() && #[trigger] s[i].0 == k implies alist_to_map(
            s,
        ).dom().contains(k) by {
            let i = choose|i: int| 0 <= i < s.len() && #[trigger] s[i].0 == k;
            if i == s.len() - 1 {
            } else {
                assert(s.drop_last()[i].0 == k);
            }
        }
    }
}

pub proof fn lemma_alist_to_map_val(s: Seq<(Seq<char>, Seq<Seq<char>>)>, i: int)
    requires
        0 <= i < s.len(),
        forall|a: int, b: int| 0 <= a < b < s.len() ==> (#[trigger] s[a]).0 != (#[trigger] s[b]).0,
    ensures
        alist_to_map(s).dom().contains(s[i].0),
        alist_to_map(s)[s[i].0] == s[i].1,
    decreases s.len(),
{
    lemma_alist_to_map_dom(s);
    if i == s.len() - 1 {
    } else {
        assert(s.drop_last()[i] == s[i]);
        lemma_alist_to_map_val(s.drop_last(), i);
        assert(s[i].0 != s.last().0);
    }
}

impl AliasMap {
    /// The entries as an association list of views, in insertion order.
    pub closed spec fn alist(&self) -> Seq<(Seq<char>, Seq<Seq<char>>)> {
        self.entries@.map_values(
            |p: (AliasEmailAddress, Vec<AliasEmailAddress>)| (p.0@, p.1.deep_view()),
        )
    }

    /// Well-formed: no destination appears twice.
    pub open spec fn wf(&self) -> bool {
        forall|a: int, b: int|
            0 <= a < b < self.alist().len() ==> (#[trigger] self.alist()[a]).0
                != (#[trigger] self.alist()[b]).0
    }

    /// An empty map.
    pub fn new() -> (r: AliasMap)
        ensures
            r@ == Map::<Seq<char>, Seq<Seq<char>>>::empty(),
            r.wf(),
            r.alist() == Seq::<(Seq<char>, Seq<Seq<char>>)>::empty(),
    {
        let r = AliasMap { entries: Vec::new() };
        proof {
            assert(r.alist() =~= Seq::<(Seq<char>, Seq<Seq<char>>)>::empty());
        }
        r
    }

    /// How many destinations the map holds.
    pub fn len(&self) -> (n: usize)
        ensures
            n == self.alist().len(),
    {
        self.entries.len()
    }

    /// The entry at a position of the insertion order.
    pub fn entry_at(&self, i: usize) -> (e: &(AliasEmailAddress, Vec<AliasEmailAddress>))
        requires
            i < self.alist().len(),
        ensures
            e.0@ == self.alist()[i as int].0,
            e.1.deep_view() == self.alist()[i as int].1,
    {
        &self.entries[i]
    }

    /// Where the destination sits in the entry vector, if anywhere.
    fn index_of(&self, k: &AliasEmailAddress) -> (r: Option<usize>)
        ensures
            match r {
                Some(i) => i < self.alist().len() && self.alist()[i as int].0 == k@,
                None => forall|i: int|
                    0 <= i < self.alist().len() ==> (#[trigger] self.alist()[i]).0 != k@,
            },
    {
        let n = self.entries.len();
        let mut i: usize = 0;
        while i < n
            invariant
                n == self.entries@.len(),
                n == self.alist().len(),
                i <= n,
                forall|j: int| 0 <= j < i ==> (#[trigger] self.alist()[j]).0 != k@,
            decreases n - i,
        {
            if self.entries[i].0.same_as(k) {
                assert(self.alist()[i as int].0 == k@);
                return Some(i);
            }
            i = i + 1;
        }
        None
    }

    /// The forward list of a destination, if the destination is a key.
    pub fn get(&self, k: &AliasEmailAddress) -> (r: Option<&Vec<AliasEmailAddress>>)
        requires
            self.wf(),
        ensures
            match r {
                Some(v) => self@.dom().contains(k@) && v.deep_view() == self@[k@],
                None => !self@.dom().contains(k@),
            },
    {
        proof {
            lemma_alist_to_map_dom(self.alist());
        }
        match self.index_of(k) {
            Some(i) => {
                proof {
                    lemma_alist_to_map_val(self.alist(), i as int);
                }
                Some(&self.entries[i].1)
            },
            None => None,
        }
    }

    /// Whether the destination is a key of the map.
    pub fn contains_key(&self, k: &AliasEmailAddress) -> (r: bool)
        requires
            self.wf(),
        ensures
            r == self@.dom().contains(k@),
    {
        match self.get(k) {
            Some(_) => true,
            None => false,
        }
    }

    /// Bind the destination to this forward list, replacing any earlier one.
    pub fn insert(&mut self, k: AliasEmailAddress, v: Vec<AliasEmailAddress>)
        requires
            old(self).wf(),
        ensures
            final(self).wf(),
            final(self)@ == old(self)@.insert(k@, v.deep_view()),
            final(self)@.dom() == old(self)@.dom().insert(k@),
    {
        proof {
            lemma_alist_to_map_dom(self.alist());
        }
        let ghost old_alist = self.alist();
        match self.index_of(&k) {
            Some(i) => {
                let ghost kk = k@;
                let ghost vv = v.deep_view();
                let _ = self.entries.remove(i);
                self.entries.insert(i, (k, v));
                proof {
                    assert(self.alist() =~= old_alist.update(i as int, (kk, vv)));
                    lemma_alist_update(old_alist, i as int, kk, vv);
                    assert(self@ == old(self)@.insert(kk, vv));
                    assert(self@.dom() =~= old(self)@.dom().insert(kk));
                }
            },
            None => {
                let ghost kk = k@;
                let ghost vv = v.deep_view();
                self.entries.push((k, v));
                proof {
                    assert(self.alist() =~= old_alist.push((kk, vv)));
                    assert(self.alist().drop_last() =~= old_alist);
                    assert(self@ == old(self)@.insert(kk, vv));
                    assert(self@.dom() =~= old(self)@.dom().insert(kk));
                }
            },
        }
    }
}

/// Updating the entry of a key already present updates the denoted map at
/// that key alone.
proof fn lemma_alist_update(
    s: Seq<(Seq<char>, Seq<Seq<char>>)>,
    i: int,
    k: Seq<char>,
    v: Seq<Seq<char>>,
)
    requires
        0 <= i < s.len(),
        s[i].0 == k,
        forall|a: int, b: int| 0 <= a < b < s.len() ==> (#[trigger] s[a]).0 != (#[trigger] s[b]).0,
    ensures
        alist_to_map(s.update(i, (k, v))) == alist_to_map(s).insert(k, v),
    decreases s.len(),
{
    let su = s.update(i, (k, v));
    if i == s.len() - 1 {
        assert(su.drop_last() =~= s.drop_last());
        assert(su.last() == (k, v));
        assert(alist_to_map(su) =~= alist_to_map(s).insert(k, v));
    } else {
        assert(su.drop_last() =~= s.drop_last().update(i, (k, v)));
        assert(s.drop_last()[i] == s[i]);
        lemma_alist_update(s.drop_last(), i, k, v);
        assert(su.last() == s.last());
        assert(s.last().0 != k);
        assert(alist_to_map(su) == alist_to_map(s.drop_last()).insert(k, v).insert(
            s.last().0,
            s.last().1,
        ));
        assert(alist_to_map(s.drop_last()).insert(k, v).insert(s.last().0, s.last().1)
            =~= alist_to_map(s.drop_last()).insert(s.last().0, s.last().1).insert(k, v));
    }
}

/// A copy of a vector of addresses.
pub fn clone_addr_vec(v: &Vec<AliasEmailAddress>) -> (r: Vec<AliasEmailAddress>)
    ensures
        r@ == v@,
        r.deep_view() == v.deep_view(),
{
    let n = v.len();
    let mut r: Vec<AliasEmailAddress> = Vec::new();
    let mut i: usize = 0;
    while i < n
        invariant
            n == v@.len(),
            i <= n,
            r@ == v@.take(i as int),
        decreases n - i,
    {
        r.push(v[i].clone());
        assert(v@.take(i + 1 as int) =~= v@.take(i as int).push(v@[i as int]));
        i = i + 1;
    }
    assert(r@ =~= v@);
    r
}

} // verus!
