use vstd::prelude::*;

use crate::model::perm_valid;
use crate::types::{PermEntry, WithdrawPermission, WithdrawRole};

verus! {

/// No holder occurs twice in `s`.
pub open spec fn holders_unique(s: Seq<PermEntry>) -> bool {
    forall|i: int, j: int|
        0 <= i < s.len() && 0 <= j < s.len() && i != j ==> (#[trigger] s[i]).holder@ != (#[trigger] s[j]).holder@
}

/// `k` holds a right in `s`.
pub open spec fn holds(s: Seq<PermEntry>, k: Seq<char>) -> bool {
    exists|i: int| 0 <= i < s.len() && (#[trigger] s[i]).holder@ == k
}

/// The rights in `s`, by holder.
pub open spec fn perm_map(s: Seq<PermEntry>) -> Map<Seq<char>, WithdrawPermission> {
    Map::new(
        |k: Seq<char>| holds(s, k),
        |k: Seq<char>| s[choose|i: int| 0 <= i < s.len() && (#[trigger] s[i]).holder@ == k].perm,
    )
}

/// With unique holders, the right of the holder at `i` is the one at `i`.
pub proof fn lemma_perm_map_at(s: Seq<PermEntry>, i: int)
    requires
        holders_unique(s),
        0 <= i < s.len(),
    ensures
        perm_map(s).contains_key(s[i].holder@),
        perm_map(s)[s[i].holder@] == s[i].perm,
{
    let k = s[i].holder@;
    assert(holds(s, k));
    let j = choose|j: int| 0 <= j < s.len() && (#[trigger] s[j]).holder@ == k;
    assert(j == i);
}

/// The withdrawal rights of a group: one entry per holder.
pub struct PermTable {
    entries: Vec<PermEntry>,
}

impl View for PermTable {
    type V = Map<Seq<char>, WithdrawPermission>;

    closed spec fn view(&self) -> Map<Seq<char>, WithdrawPermission> {
        perm_map(self.entries@)
    }
}

impl PermTable {
    pub closed spec fn wf(&self) -> bool {
        holders_unique(self.entries@)
    }

    /// The entries of the table, in the order they are held.
    pub closed spec fn entries_view(&self) -> Seq<PermEntry> {
        self.entries@
    }

    pub fn new() -> (t: PermTable)
        ensures
            t.wf(),
            t@ == Map::<Seq<char>, WithdrawPermission>::empty(),
    {
        let t = PermTable { entries: Vec::new() };
        assert(t@ =~= Map::<Seq<char>, WithdrawPermission>::empty());
        t
    }

    /// The position of the entry of `k`, if there is one.
    fn find(&self, k: &String) -> (r: Option<usize>)
        ensures
            match r {
                Some(i) => i < self.entries@.len() && self.entries@[i as int].holder@ == k@,
                None => !holds(self.entries@, k@),
            },
    {
        let mut i: usize = 0;
        while i < self.entries.len()
            invariant
                i <= self.entries@.len(),
                forall|j: int| 0 <= j < i ==> (#[trigger] self.entries@[j]).holder@ != k@,
            decreases self.entries@.len() - i,
        {
            if self.entries[i].holder == *k {
                return Some(i);
            }
            i = i + 1;
        }
        None
    }

    /// The right that `k` holds, if any.
    pub fn get(&self, k: &String) -> (r: Option<WithdrawPermission>)
        requires
            self.wf(),
        ensures
            r == (if self@.contains_key(k@) { Some(self@[k@]) } else { None::<WithdrawPermission> }),
    {
        match self.find(k) {
            Some(i) => {
                proof {
                    lemma_perm_map_at(self.entries@, i as int);
                }
                Some(self.entries[i].perm)
            },
            None => None,
        }
    }

    /// Gives `k` the right `p`, replacing the one it held.
    pub fn set(&mut self, k: String, p: WithdrawPermission)
        requires
            old(self).wf(),
        ensures
            final(self).wf(),
            final(self)@ == old(self)@.insert(k@, p),
    {
        let ghost old_entries = self.entries@;
        let ghost key = k@;
        match self.find(&k) {
            Some(i) => {
                self.entries.set(i, PermEntry { holder: k, perm: p });
                proof {
                    let s = self.entries@;
                    assert(holders_unique(s));
                    assert forall|q: Seq<char>| #[trigger] perm_map(s).contains_key(q) == perm_map(old_entries)
                        .insert(key, p).contains_key(q) by {
                        if q != key {
                            if holds(old_entries, q) {
                                let j = choose|j: int| 0 <= j < old_entries.len() && (#[trigger] old_entries[j]).holder@ == q;
                                assert(s[j].holder@ == q);
                            }
                            if holds(s, q) {
                                let j = choose|j: int| 0 <= j < s.len() && (#[trigger] s[j]).holder@ == q;
                                assert(old_entries[j].holder@ == q);
                            }
                        } else {
                            assert(s[i as int].holder@ == q);
                        }
                    }
                    assert forall|q: Seq<char>| #[trigger] perm_map(s).contains_key(q) implies perm_map(s)[q]
                        == perm_map(old_entries).insert(key, p)[q] by {
                        let j = choose|j: int| 0 <= j < s.len() && (#[trigger] s[j]).holder@ == q;
                        lemma_perm_map_at(s, j);
                        if q != key {
                            lemma_perm_map_at(old_entries, j);
                        }
                    }
                    assert(perm_map(s) =~= perm_map(old_entries).insert(key, p));
                }
            },
            None => {
                self.entries.push(PermEntry { holder: k, perm: p });
                proof {
                    let s = self.entries@;
                    let n = old_entries.len() as int;
                    assert(holders_unique(s));
                    assert forall|q: Seq<char>| #[trigger] perm_map(s).contains_key(q) == perm_map(old_entries)
                        .insert(key, p).contains_key(q) by {
                        if holds(old_entries, q) {
                            let j = choose|j: int| 0 <= j < old_entries.len() && (#[trigger] old_entries[j]).holder@ == q;
                            assert(s[j].holder@ == q);
                        }
                        if holds(s, q) && q != key {
                            let j = choose|j: int| 0 <= j < s.len() && (#[trigger] s[j]).holder@ == q;
                            assert(old_entries[j].holder@ == q);
                        }
                        if q == key {
                            assert(s[n].holder@ == q);
                        }
                    }
                    assert forall|q: Seq<char>| #[trigger] perm_map(s).contains_key(q) implies perm_map(s)[q]
                        == perm_map(old_entries).insert(key, p)[q] by {
                        let j = choose|j: int| 0 <= j < s.len() && (#[trigger] s[j]).holder@ == q;
                        lemma_perm_map_at(s, j);
                        if q != key {
                            lemma_perm_map_at(old_entries, j);
                        }
                    }
                    assert(perm_map(s) =~= perm_map(old_entries).insert(key, p));
                }
            },
        }
    }

    /// Takes away the right that `k` holds, if any.
    pub fn remove(&mut self, k: &String)
        requires
            old(self).wf(),
        ensures
            final(self).wf(),
            final(self)@ == old(self)@.remove(k@),
    {
        let ghost old_entries = self.entries@;
        let ghost key = k@;
        match self.find(k) {
            Some(i) => {
                self.entries.remove(i);
                proof {
                    let s = self.entries@;
                    let n = i as int;
                    assert forall|a: int, b: int|
                        0 <= a < s.len() && 0 <= b < s.len() && a != b implies (#[trigger] s[a]).holder@
                        != (#[trigger] s[b]).holder@ by {
                        let a2 = if a < n { a } else { a + 1 };
                        let b2 = if b < n { b } else { b + 1 };
                        assert(s[a] == old_entries[a2]);
                        assert(s[b] == old_entries[b2]);
                    }
                    assert forall|q: Seq<char>| #[trigger] perm_map(s).contains_key(q) == perm_map(old_entries)
                        .remove(key).contains_key(q) by {
                        if holds(old_entries, q) && q != key {
                            let j = choose|j: int| 0 <= j < old_entries.len() && (#[trigger] old_entries[j]).holder@ == q;
                            assert(j != n);
                            let j2 = if j < n { j } else { j - 1 };
                            assert(s[j2].holder@ == q);
                        }
                        if holds(s, q) {
                            let j = choose|j: int| 0 <= j < s.len() && (#[trigger] s[j]).holder@ == q;
                            let j2 = if j < n { j } else { j + 1 };
                            assert(old_entries[j2].holder@ == q);
                            assert(j2 != n);
                        }
                    }
                    assert forall|q: Seq<char>| #[trigger] perm_map(s).contains_key(q) implies perm_map(s)[q]
                        == perm_map(old_entries).remove(key)[q] by {
                        let j = choose|j: int| 0 <= j < s.len() && (#[trigger] s[j]).holder@ == q;
                        let j2 = if j < n { j } else { j + 1 };
                        assert(s[j] == old_entries[j2]);
                        lemma_perm_map_at(s, j);
                        lemma_perm_map_at(old_entries, j2);
                    }
                    assert(perm_map(s) =~= perm_map(old_entries).remove(key));
                }
            },
            None => {
                assert(perm_map(old_entries) =~= perm_map(old_entries).remove(key));
            },
        }
    }

    /// The entries of the table, copied.
    pub fn to_entries(&self) -> (r: Vec<PermEntry>)
        ensures
            r@.len() == self.entries_view().len(),
            forall|i: int|
                0 <= i < r@.len() ==> (#[trigger] r@[i]).holder@ == self.entries_view()[i].holder@
                    && r@[i].perm == self.entries_view()[i].perm,
    {
        let mut r: Vec<PermEntry> = Vec::new();
        let mut i: usize = 0;
        while i < self.entries.len()
            invariant
                i <= self.entries@.len(),
                r@.len() == i,
                forall|j: int|
                    0 <= j < i ==> (#[trigger] r@[j]).holder@ == self.entries@[j].holder@
                        && r@[j].perm == self.entries@[j].perm,
            decreases self.entries@.len() - i,
        {
            let e = &self.entries[i];
            r.push(PermEntry { holder: e.holder.clone(), perm: e.perm });
            i = i + 1;
        }
        r
    }

    /// A table of the entries `v`, or `None` where a holder occurs twice.
    pub fn from_entries(v: Vec<PermEntry>) -> (r: Option<PermTable>)
        ensures
            r is Some <==> holders_unique(v@),
            r matches Some(t) ==> t.wf() && t.entries_view() == v@ && t@ == perm_map(v@),
    {
        let mut i: usize = 0;
        while i < v.len()
            invariant
                i <= v@.len(),
                forall|a: int, b: int|
                    0 <= a < i && 0 <= b < v@.len() && a != b ==> (#[trigger] v@[a]).holder@
                        != (#[trigger] v@[b]).holder@,
            decreases v@.len() - i,
        {
            let mut j: usize = 0;
            while j < v.len()
                invariant
                    i < v@.len(),
                    j <= v@.len(),
                    forall|a: int, b: int|
                        0 <= a < i && 0 <= b < v@.len() && a != b ==> (#[trigger] v@[a]).holder@
                            != (#[trigger] v@[b]).holder@,
                    forall|b: int| 0 <= b < j && b != i ==> v@[i as int].holder@ != (#[trigger] v@[b]).holder@,
                decreases v@.len() - j,
            {
                if j != i && v[i].holder == v[j].holder {
                    assert(!holders_unique(v@)) by {
                        assert(v@[i as int].holder@ == v@[j as int].holder@);
                    }
                    return None;
                }
                j = j + 1;
            }
            i = i + 1;
        }
        Some(PermTable { entries: v })
    }

    /// Distinct entries of a well-formed table have distinct holders.
    pub proof fn lemma_wf_unique(&self, i: int, j: int)
        requires
            self.wf(),
            0 <= i < self.entries_view().len(),
            0 <= j < self.entries_view().len(),
            i != j,
        ensures
            self.entries_view()[i].holder@ != self.entries_view()[j].holder@,
    {
    }

    /// Entries with the same holders and rights as the table give its map.
    pub proof fn lemma_same_map(&self, s: Seq<PermEntry>)
        requires
            self.wf(),
            s.len() == self.entries_view().len(),
            forall|i: int|
                0 <= i < s.len() ==> (#[trigger] s[i]).holder@ == self.entries_view()[i].holder@ && s[i].perm
                    == self.entries_view()[i].perm,
        ensures
            perm_map(s) == self@,
    {
        let e = self.entries@;
        assert forall|q: Seq<char>| #[trigger] perm_map(s).contains_key(q) == self@.contains_key(q) by {
            if holds(s, q) {
                let j = choose|j: int| 0 <= j < s.len() && (#[trigger] s[j]).holder@ == q;
                assert(e[j].holder@ == q);
            }
            if holds(e, q) {
                let j = choose|j: int| 0 <= j < e.len() && (#[trigger] e[j]).holder@ == q;
                assert(s[j].holder@ == q);
            }
        }
        assert forall|q: Seq<char>| #[trigger] perm_map(s).contains_key(q) implies perm_map(s)[q] == self@[q] by {
            let a = choose|j: int| 0 <= j < s.len() && (#[trigger] s[j]).holder@ == q;
            let b = choose|j: int| 0 <= j < e.len() && (#[trigger] e[j]).holder@ == q;
            assert(e[a].holder@ == q);
            assert(s[b].holder@ == q);
            assert(a == b);
        }
        assert(perm_map(s) =~= self@);
    }

    /// Whether no right is held.
    pub fn is_empty(&self) -> (b: bool)
        requires
            self.wf(),
        ensures
            b == (self@ == Map::<Seq<char>, WithdrawPermission>::empty()),
    {
        if self.entries.len() == 0 {
            assert(self@ =~= Map::<Seq<char>, WithdrawPermission>::empty());
            true
        } else {
            assert(self@.contains_key(self.entries@[0].holder@)) by {
                lemma_perm_map_at(self.entries@, 0);
            }
            false
        }
    }

    /// Whether every right held is one that a grant can give.
    pub fn all_valid(&self) -> (b: bool)
        requires
            self.wf(),
        ensures
            b == (forall|k: Seq<char>| #[trigger] self@.contains_key(k) ==> perm_valid(self@[k])),
    {
        let mut i: usize = 0;
        while i < self.entries.len()
            invariant
                self.wf(),
                i <= self.entries@.len(),
                forall|j: int| 0 <= j < i ==> perm_valid((#[trigger] self.entries@[j]).perm),
            decreases self.entries@.len() - i,
        {
            let p = self.entries[i].perm;
            let ok = p.role != WithdrawRole::NoRole && (p.role != WithdrawRole::Limited || p.limit > 0)
                && p.total_withdrawn >= 0;
            if !ok {
                proof {
                    lemma_perm_map_at(self.entries@, i as int);
                    let k = self.entries@[i as int].holder@;
                    assert(self@.contains_key(k) && !perm_valid(self@[k]));
                }
                return false;
            }
            i = i + 1;
        }
        proof {
            assert forall|k: Seq<char>| #[trigger] self@.contains_key(k) implies perm_valid(self@[k]) by {
                let j = choose|j: int| 0 <= j < self.entries@.len() && (#[trigger] self.entries@[j]).holder@ == k;
                lemma_perm_map_at(self.entries@, j);
            }
        }
        true
    }
}

} // verus!
