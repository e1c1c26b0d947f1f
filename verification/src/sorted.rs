//! A map whose entries stand in the order of their keys.

use crate::ip::{ip_less, lemma_ip_less_order, IpAddress};
use crate::text::{
    comes_before, lemma_text_less_irreflexive, lemma_text_less_total, lemma_text_less_transitive,
    text_less,
};
use vstd::prelude::*;

verus! {

/// Keys with a total order, which goes by their views.
pub trait SortKey: View + Sized {
    spec fn less(a: Self::V, b: Self::V) -> bool;

    proof fn irreflexive(a: Self::V)
        ensures
            !Self::less(a, a),
    ;

    proof fn transitive(a: Self::V, b: Self::V, c: Self::V)
        requires
            Self::less(a, b),
            Self::less(b, c),
        ensures
            Self::less(a, c),
    ;

    proof fn total(a: Self::V, b: Self::V)
        ensures
            Self::less(a, b) || Self::less(b, a) || a == b,
    ;

    fn before(&self, other: &Self) -> (res: bool)
        ensures
            res == Self::less(self@, other@),
    ;
}

impl View for IpAddress {
    type V = IpAddress;

    open spec fn view(&self) -> IpAddress {
        *self
    }
}

impl SortKey for IpAddress {
    open spec fn less(a: IpAddress, b: IpAddress) -> bool {
        ip_less(a, b)
    }

    proof fn irreflexive(a: IpAddress) {
    }

    proof fn transitive(a: IpAddress, b: IpAddress, c: IpAddress) {
        lemma_ip_less_order(a, b, c);
    }

    proof fn total(a: IpAddress, b: IpAddress) {
        lemma_ip_less_order(a, b, a);
    }

    fn before(&self, other: &IpAddress) -> bool {
        self.comes_before(other)
    }
}

impl SortKey for String {
    open spec fn less(a: Seq<char>, b: Seq<char>) -> bool {
        text_less(a, b)
    }

    proof fn irreflexive(a: Seq<char>) {
        lemma_text_less_irreflexive(a);
    }

    proof fn transitive(a: Seq<char>, b: Seq<char>, c: Seq<char>) {
        lemma_text_less_transitive(a, b, c);
    }

    proof fn total(a: Seq<char>, b: Seq<char>) {
        lemma_text_less_total(a, b);
    }

    fn before(&self, other: &String) -> bool {
        comes_before(self.as_str(), other.as_str())
    }
}

/// Pairs go by their first part, then by their second.
impl<A: SortKey, B: SortKey> SortKey for (A, B) {
    open spec fn less(a: (A::V, B::V), b: (A::V, B::V)) -> bool {
        A::less(a.0, b.0) || (a.0 == b.0 && B::less(a.1, b.1))
    }

    proof fn irreflexive(a: (A::V, B::V)) {
        A::irreflexive(a.0);
        B::irreflexive(a.1);
    }

    proof fn transitive(a: (A::V, B::V), b: (A::V, B::V), c: (A::V, B::V)) {
        if A::less(a.0, b.0) && A::less(b.0, c.0) {
            A::transitive(a.0, b.0, c.0);
        } else if a.0 == b.0 && b.0 == c.0 {
            B::transitive(a.1, b.1, c.1);
        }
    }

    proof fn total(a: (A::V, B::V), b: (A::V, B::V)) {
        A::total(a.0, b.0);
        B::total(a.1, b.1);
    }

    fn before(&self, other: &(A, B)) -> bool {
        if self.0.before(&other.0) {
            true
        } else if other.0.before(&self.0) {
            proof {
                A::irreflexive(self.0@);
            }
            false
        } else {
            proof {
                A::total(self.0@, other.0@);
                A::irreflexive(self.0@);
            }
            self.1.before(&other.1)
        }
    }
}

/// Entries in strictly ascending order of their keys, so that no key occurs twice.
pub struct SortedMap<K, V> {
    pub entries: Vec<(K, V)>,
}

/// The keys ascend strictly.
pub open spec fn ascending<K: SortKey, V>(s: Seq<(K, V)>) -> bool {
    forall|i: int, j: int| 0 <= i < j < s.len() ==> K::less(#[trigger] s[i].0@, #[trigger] s[j].0@)
}

/// The map that entries with different keys make up.
pub open spec fn entry_map<K: SortKey, V>(s: Seq<(K, V)>) -> Map<K::V, V> {
    Map::new(
        |k: K::V| exists|i: int| 0 <= i < s.len() && #[trigger] s[i].0@ == k,
        |k: K::V| s[choose|i: int| 0 <= i < s.len() && #[trigger] s[i].0@ == k].1,
    )
}

pub proof fn lemma_ascending_apart<K: SortKey, V>(s: Seq<(K, V)>, i: int, j: int)
    requires
        ascending(s),
        0 <= i < s.len(),
        0 <= j < s.len(),
        s[i].0@ == s[j].0@,
    ensures
        i == j,
{
    if i < j {
        assert(K::less(s[i].0@, s[j].0@));
        K::irreflexive(s[i].0@);
    } else if j < i {
        assert(K::less(s[j].0@, s[i].0@));
        K::irreflexive(s[i].0@);
    }
}

/// Each entry is what the map holds under its key.
pub proof fn lemma_entry_map<K: SortKey, V>(s: Seq<(K, V)>)
    requires
        ascending(s),
    ensures
        forall|i: int|
            0 <= i < s.len() ==> entry_map(s).contains_key(#[trigger] s[i].0@) && entry_map(
                s,
            )[s[i].0@] == s[i].1,
{
    assert forall|i: int| 0 <= i < s.len() implies entry_map(s).contains_key(#[trigger] s[i].0@)
        && entry_map(s)[s[i].0@] == s[i].1 by {
        let k = s[i].0@;
        let j = choose|j: int| 0 <= j < s.len() && #[trigger] s[j].0@ == k;
        lemma_ascending_apart(s, i, j);
    }
}

/// A map has as many keys as there are entries.
pub proof fn lemma_entry_map_len<K: SortKey, V>(s: Seq<(K, V)>)
    requires
        ascending(s),
    ensures
        entry_map(s).dom().finite(),
        entry_map(s).dom().len() == s.len(),
    decreases s.len(),
{
    if s.len() == 0 {
        assert(entry_map(s).dom() =~= Set::empty());
    } else {
        let t = s.drop_last();
        lemma_entry_map_len(t);
        lemma_entry_map(s);
        lemma_entry_map(t);
        let last = s.last().0@;
        assert(s[s.len() - 1].0@ == last);
        assert(!entry_map(t).dom().contains(last)) by {
            if entry_map(t).dom().contains(last) {
                let i = choose|i: int| 0 <= i < t.len() && #[trigger] t[i].0@ == last;
                assert(s[i].0@ == last);
                lemma_ascending_apart(s, i, s.len() - 1);
            }
        }
        assert(entry_map(s).dom() =~= entry_map(t).dom().insert(last)) by {
            assert forall|k: K::V| entry_map(s).dom().contains(k) implies entry_map(
                t,
            ).dom().insert(last).contains(k) by {
                let i = choose|i: int| 0 <= i < s.len() && #[trigger] s[i].0@ == k;
                if i < t.len() {
                    assert(t[i].0@ == k);
                }
            }
            assert forall|k: K::V| entry_map(t).dom().insert(last).contains(k) implies entry_map(
                s,
            ).dom().contains(k) by {
                if k != last {
                    let i = choose|i: int| 0 <= i < t.len() && #[trigger] t[i].0@ == k;
                    assert(s[i].0@ == k);
                }
            }
        }
    }
}

/// The entries are determined by the map: the same keys in the same places, with the
/// same values.
pub proof fn law_one_order_of_entries<K: SortKey, V>(a: Seq<(K, V)>, b: Seq<(K, V)>)
    requires
        ascending(a),
        ascending(b),
        entry_map(a) == entry_map(b),
    ensures
        a.len() == b.len(),
        forall|i: int|
            0 <= i < a.len() ==> #[trigger] a[i].0@ == b[i].0@ && a[i].1 == b[i].1,
{
    lemma_entry_map_len(a);
    lemma_entry_map_len(b);
    lemma_entry_map(a);
    lemma_entry_map(b);
    assert forall|i: int| 0 <= i < a.len() implies #[trigger] a[i].0@ == b[i].0@ && a[i].1
        == b[i].1 by {
        lemma_same_keys(a, b, i);
        assert(entry_map(a)[a[i].0@] == a[i].1);
        assert(entry_map(b)[b[i].0@] == b[i].1);
    }
}

proof fn lemma_same_keys<K: SortKey, V>(a: Seq<(K, V)>, b: Seq<(K, V)>, n: int)
    requires
        ascending(a),
        ascending(b),
        entry_map(a) == entry_map(b),
        a.len() == b.len(),
        0 <= n < a.len(),
    ensures
        a[n].0@ == b[n].0@,
    decreases n,
{
    assert forall|j: int| 0 <= j < n implies #[trigger] a[j].0@ == b[j].0@ by {
        lemma_same_keys(a, b, j);
    }
    K::total(a[n].0@, b[n].0@);
    lemma_no_key_between(a, b, n);
    lemma_no_key_between(b, a, n);
}

proof fn lemma_no_key_between<K: SortKey, V>(a: Seq<(K, V)>, b: Seq<(K, V)>, n: int)
    requires
        ascending(a),
        ascending(b),
        entry_map(a) == entry_map(b),
        a.len() == b.len(),
        0 <= n < a.len(),
        forall|j: int| 0 <= j < n ==> #[trigger] a[j].0@ == b[j].0@,
    ensures
        !K::less(a[n].0@, b[n].0@),
{
    lemma_entry_map(a);
    let k = a[n].0@;
    assert(entry_map(b).contains_key(k));
    let j = choose|j: int| 0 <= j < b.len() && #[trigger] b[j].0@ == k;
    if j < n {
        assert(a[j].0@ == b[j].0@);
        lemma_ascending_apart(a, j, n);
    } else if j == n {
        K::irreflexive(k);
    } else if K::less(k, b[n].0@) {
        assert(K::less(b[n].0@, b[j].0@));
        K::transitive(k, b[n].0@, k);
        K::irreflexive(k);
    }
}

impl<K: SortKey, V> View for SortedMap<K, V> {
    type V = Map<K::V, V>;

    open spec fn view(&self) -> Map<K::V, V> {
        entry_map(self.entries@)
    }
}

impl<K: SortKey, V> SortedMap<K, V> {
    pub open spec fn wf(&self) -> bool {
        ascending(self.entries@)
    }

    /// A map without entries.
    pub fn new() -> (res: Self)
        ensures
            res.wf(),
            res@ == Map::<K::V, V>::empty(),
            res.entries@.len() == 0,
    {
        let res = SortedMap { entries: Vec::new() };
        assert(res@ =~= Map::<K::V, V>::empty());
        res
    }

    pub fn len(&self) -> (res: usize)
        requires
            self.wf(),
        ensures
            res == self.entries@.len(),
            res == self@.dom().len(),
    {
        proof {
            lemma_entry_map_len(self.entries@);
        }
        self.entries.len()
    }

    /// The number of entries whose keys come before `key`.
    fn place(&self, key: &K) -> (res: usize)
        requires
            self.wf(),
        ensures
            res <= self.entries@.len(),
            forall|i: int| 0 <= i < res ==> K::less(#[trigger] self.entries@[i].0@, key@),
            forall|i: int|
                res <= i < self.entries@.len() ==> !K::less(#[trigger] self.entries@[i].0@, key@),
    {
        let mut low: usize = 0;
        let mut high: usize = self.entries.len();
        while low < high
            invariant
                self.wf(),
                low <= high <= self.entries@.len(),
                forall|j: int| 0 <= j < low ==> K::less(#[trigger] self.entries@[j].0@, key@),
                forall|j: int|
                    high <= j < self.entries@.len() ==> !K::less(
                        #[trigger] self.entries@[j].0@,
                        key@,
                    ),
            decreases high - low,
        {
            let middle: usize = low + (high - low) / 2;
            let ghost pivot = self.entries@[middle as int].0@;
            if self.entries[middle].0.before(key) {
                proof {
                    assert forall|j: int| 0 <= j < middle implies K::less(
                        #[trigger] self.entries@[j].0@,
                        key@,
                    ) by {
                        K::transitive(self.entries@[j].0@, pivot, key@);
                    }
                }
                low = middle + 1;
            } else {
                proof {
                    assert forall|j: int| middle < j < self.entries@.len() implies !K::less(
                        #[trigger] self.entries@[j].0@,
                        key@,
                    ) by {
                        if K::less(self.entries@[j].0@, key@) {
                            K::transitive(pivot, self.entries@[j].0@, key@);
                        }
                    }
                }
                high = middle;
            }
        }
        low
    }

    /// The place of the entry with this key.
    pub fn find(&self, key: &K) -> (res: Option<usize>)
        requires
            self.wf(),
        ensures
            match res {
                Some(i) => {
                    &&& i < self.entries@.len()
                    &&& self.entries@[i as int].0@ == key@
                    &&& self@.contains_key(key@)
                    &&& self@[key@] == self.entries@[i as int].1
                },
                None => !self@.contains_key(key@),
            },
    {
        let i: usize = self.place(key);
        proof {
            lemma_entry_map(self.entries@);
        }
        if i < self.entries.len() && !key.before(&self.entries[i].0) {
            proof {
                K::total(self.entries@[i as int].0@, key@);
            }
            Some(i)
        } else {
            proof {
                if self@.contains_key(key@) {
                    let j = choose|j: int|
                        0 <= j < self.entries@.len() && #[trigger] self.entries@[j].0@ == key@;
                    K::irreflexive(key@);
                    if j > i {
                        assert(K::less(self.entries@[i as int].0@, self.entries@[j].0@));
                    }
                }
            }
            None
        }
    }

    /// Puts `value` under `key`, in place of what stood there.
    pub fn insert(&mut self, key: K, value: V)
        requires
            old(self).wf(),
        ensures
            final(self).wf(),
            final(self)@ == old(self)@.insert(key@, value),
    {
        let i: usize = self.place(&key);
        let ghost before = self.entries@;
        let ghost k = key@;
        proof {
            lemma_entry_map(before);
        }
        if i < self.entries.len() && !key.before(&self.entries[i].0) {
            proof {
                K::total(before[i as int].0@, k);
            }
            self.entries.remove(i);
            self.entries.insert(i, (key, value));
            let ghost after = self.entries@;
            proof {
                assert(after =~= before.update(i as int, (key, value)));
                assert forall|a: int, b: int| 0 <= a < b < after.len() implies K::less(
                    #[trigger] after[a].0@,
                    #[trigger] after[b].0@,
                ) by {
                    assert(K::less(before[a].0@, before[b].0@));
                }
                lemma_entry_map(after);
                assert(self@ =~= entry_map(before).insert(k, value)) by {
                    assert forall|x: K::V| self@.contains_key(x) <==> entry_map(before).insert(
                        k,
                        value,
                    ).contains_key(x) by {
                        if self@.contains_key(x) {
                            let j = choose|j: int| 0 <= j < after.len() && #[trigger] after[j].0@ == x;
                            assert(before[j].0@ == x);
                        }
                        if entry_map(before).contains_key(x) {
                            let j = choose|j: int|
                                0 <= j < before.len() && #[trigger] before[j].0@ == x;
                            assert(after[j].0@ == x);
                        }
                        if x == k {
                            assert(after[i as int].0@ == x);
                        }
                    }
                    assert forall|x: K::V| self@.contains_key(x) implies self@[x] == entry_map(
                        before,
                    ).insert(k, value)[x] by {
                        let j = choose|j: int| 0 <= j < after.len() && #[trigger] after[j].0@ == x;
                        if j == i {
                        } else {
                            assert(after[j] == before[j]);
                            assert(entry_map(before)[before[j].0@] == before[j].1);
                            if x == k {
                                lemma_ascending_apart(before, i as int, j);
                            }
                        }
                    }
                }
            }
        } else {
            self.entries.insert(i, (key, value));
            let ghost after = self.entries@;
            proof {
                assert(after =~= before.insert(i as int, (key, value)));
                assert forall|b: int| i <= b < before.len() implies K::less(
                    k,
                    #[trigger] before[b].0@,
                ) by {
                    if b > i {
                        assert(K::less(before[i as int].0@, before[b].0@));
                        K::transitive(k, before[i as int].0@, before[b].0@);
                    }
                }
                assert forall|a: int, b: int| 0 <= a < b < after.len() implies K::less(
                    #[trigger] after[a].0@,
                    #[trigger] after[b].0@,
                ) by {
                    if b < i {
                        assert(after[a] == before[a] && after[b] == before[b]);
                    } else if b == i {
                        assert(after[a] == before[a]);
                    } else if a < i {
                        assert(after[a] == before[a] && after[b] == before[b - 1]);
                    } else if a == i {
                        assert(after[b] == before[b - 1]);
                    } else {
                        assert(after[a] == before[a - 1] && after[b] == before[b - 1]);
                    }
                }
                lemma_entry_map(after);
                assert(self@ =~= entry_map(before).insert(k, value)) by {
                    assert forall|x: K::V| self@.contains_key(x) <==> entry_map(before).insert(
                        k,
                        value,
                    ).contains_key(x) by {
                        if self@.contains_key(x) {
                            let j = choose|j: int| 0 <= j < after.len() && #[trigger] after[j].0@ == x;
                            if j < i {
                                assert(before[j].0@ == x);
                            } else if j > i {
                                assert(before[j - 1].0@ == x);
                            }
                        }
                        if entry_map(before).contains_key(x) {
                            let j = choose|j: int|
                                0 <= j < before.len() && #[trigger] before[j].0@ == x;
                            if j < i {
                                assert(after[j].0@ == x);
                            } else {
                                assert(after[j + 1].0@ == x);
                            }
                        }
                        if x == k {
                            assert(after[i as int].0@ == x);
                        }
                    }
                    assert forall|x: K::V| self@.contains_key(x) implies self@[x] == entry_map(
                        before,
                    ).insert(k, value)[x] by {
                        let j = choose|j: int| 0 <= j < after.len() && #[trigger] after[j].0@ == x;
                        assert(entry_map(after)[after[j].0@] == after[j].1);
                        if j < i {
                            assert(after[j] == before[j]);
                            assert(entry_map(before)[before[j].0@] == before[j].1);
                        } else if j > i {
                            assert(after[j] == before[j - 1]);
                            assert(entry_map(before)[before[j - 1].0@] == before[j - 1].1);
                        }
                        if x == k && j != i {
                            lemma_ascending_apart(after, i as int, j);
                        }
                    }
                }
            }
        }
    }

    /// Takes the entry at a place out.
    pub fn remove_at(&mut self, i: usize)
        requires
            old(self).wf(),
            i < old(self).entries@.len(),
        ensures
            final(self).wf(),
            final(self).entries@ == old(self).entries@.remove(i as int),
            final(self)@ == old(self)@.remove(old(self).entries@[i as int].0@),
    {
        let ghost before = self.entries@;
        let ghost k = before[i as int].0@;
        self.entries.remove(i);
        let ghost after = self.entries@;
        proof {
            lemma_entry_map(before);
            assert forall|a: int, b: int| 0 <= a < b < after.len() implies K::less(
                #[trigger] after[a].0@,
                #[trigger] after[b].0@,
            ) by {
                let x = if a < i {
                    a
                } else {
                    a + 1
                };
                let y = if b < i {
                    b
                } else {
                    b + 1
                };
                assert(after[a] == before[x] && after[b] == before[y]);
            }
            lemma_entry_map(after);
            assert forall|x: K::V| self@.contains_key(x) <==> entry_map(before).remove(
                k,
            ).contains_key(x) by {
                if self@.contains_key(x) {
                    let j = choose|j: int| 0 <= j < after.len() && #[trigger] after[j].0@ == x;
                    let y = if j < i {
                        j
                    } else {
                        j + 1
                    };
                    assert(before[y].0@ == x);
                    if x == k {
                        lemma_ascending_apart(before, i as int, y);
                    }
                }
                if entry_map(before).remove(k).contains_key(x) {
                    let j = choose|j: int| 0 <= j < before.len() && #[trigger] before[j].0@ == x;
                    if j < i {
                        assert(after[j].0@ == x);
                    } else {
                        assert(after[j - 1].0@ == x);
                    }
                }
            }
            assert forall|x: K::V| self@.contains_key(x) implies self@[x] == entry_map(
                before,
            ).remove(k)[x] by {
                let j = choose|j: int| 0 <= j < after.len() && #[trigger] after[j].0@ == x;
                let y = if j < i {
                    j
                } else {
                    j + 1
                };
                assert(after[j] == before[y]);
                assert(entry_map(before)[before[y].0@] == before[y].1);
                assert(entry_map(after)[after[j].0@] == after[j].1);
            }
            assert(self@ =~= entry_map(before).remove(k));
        }
    }
}

} // verus!
