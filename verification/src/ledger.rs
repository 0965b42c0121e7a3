//! The visited-page ledger: a mapping from normalized URL to visit count,
//! kept as an association list with pairwise-distinct keys and modeled as a
//! `Map<Seq<char>, nat>`.

use vstd::prelude::*;

verus! {

/// A visit count bumped by one, saturating at the machine limit.
pub open spec fn cnt_inc(c: nat) -> nat {
    if c < usize::MAX as nat {
        c + 1
    } else {
        c
    }
}

/// The mapping that an entry list denotes: later entries override earlier
/// ones (with distinct keys nothing is overridden).
pub open spec fn map_of_entries(s: Seq<(String, usize)>) -> Map<Seq<char>, nat>
    decreases s.len(),
{
    if s.len() == 0 {
        Map::empty()
    } else {
        map_of_entries(s.drop_last()).insert(s.last().0@, s.last().1 as nat)
    }
}

/// The keys of the entry list are pairwise distinct.
pub open spec fn keys_unique(s: Seq<(String, usize)>) -> bool {
    forall|i: int, j: int| 0 <= i < j < s.len() ==> s[i].0@ != s[j].0@
}

proof fn lemma_entry_in_dom(s: Seq<(String, usize)>, i: int)
    requires
        0 <= i < s.len(),
    ensures
        map_of_entries(s).dom().contains(s[i].0@),
    decreases s.len(),
{
    if i < s.len() - 1 {
        lemma_entry_in_dom(s.drop_last(), i);
    }
}

proof fn lemma_absent_key(s: Seq<(String, usize)>, k: Seq<char>)
    requires
        forall|i: int| 0 <= i < s.len() ==> s[i].0@ != k,
    ensures
        !map_of_entries(s).dom().contains(k),
    decreases s.len(),
{
    if s.len() > 0 {
        lemma_absent_key(s.drop_last(), k);
    }
}

proof fn lemma_entry_value(s: Seq<(String, usize)>, i: int)
    requires
        keys_unique(s),
        0 <= i < s.len(),
    ensures
        map_of_entries(s).contains_pair(s[i].0@, s[i].1 as nat),
    decreases s.len(),
{
    if i < s.len() - 1 {
        lemma_entry_value(s.drop_last(), i);
    }
}

proof fn lemma_update_entry(s: Seq<(String, usize)>, i: int, e: (String, usize))
    requires
        keys_unique(s),
        0 <= i < s.len(),
        e.0@ == s[i].0@,
    ensures
        map_of_entries(s.update(i, e)) == map_of_entries(s).insert(e.0@, e.1 as nat),
    decreases s.len(),
{
    if i == s.len() - 1 {
        assert(s.update(i, e).drop_last() =~= s.drop_last());
        assert(map_of_entries(s.update(i, e)) =~= map_of_entries(s).insert(e.0@, e.1 as nat));
    } else {
        assert(s.update(i, e).drop_last() =~= s.drop_last().update(i, e));
        lemma_update_entry(s.drop_last(), i, e);
        assert(s.last().0@ != e.0@);
        assert(map_of_entries(s.update(i, e)) =~= map_of_entries(s).insert(e.0@, e.1 as nat));
    }
}

/// The visited-page ledger: each normalized URL that was ever admitted by
/// the traversal, with the number of times it was encountered.
pub struct Ledger {
    entries: Vec<(String, usize)>,
}

impl View for Ledger {
    type V = Map<Seq<char>, nat>;

    closed spec fn view(&self) -> Map<Seq<char>, nat> {
        map_of_entries(self.entries@)
    }
}

impl Ledger {
    /// The ledger's keys are pairwise distinct.
    pub closed spec fn wf(self) -> bool {
        keys_unique(self.entries@)
    }

    /// An empty ledger.
    pub fn new() -> (r: Ledger)
        ensures
            r.wf(),
            r@ == Map::<Seq<char>, nat>::empty(),
    {
        Ledger { entries: Vec::new() }
    }

    /// The count recorded under `key`, or `None` where `key` was never
    /// inserted.
    pub fn get(&self, key: &String) -> (r: Option<usize>)
        requires
            self.wf(),
        ensures
            match r {
                Some(c) => self@.contains_pair(key@, c as nat),
                None => !self@.dom().contains(key@),
            },
    {
        let n = self.entries.len();
        let mut i: usize = 0;
        while i < n
            invariant
                self.wf(),
                n == self.entries@.len(),
                i <= n,
                forall|j: int| 0 <= j < i ==> self.entries@[j].0@ != key@,
            decreases n - i,
        {
            if self.entries[i].0 == *key {
                proof {
                    lemma_entry_value(self.entries@, i as int);
                }
                return Some(self.entries[i].1);
            }
            i = i + 1;
        }
        proof {
            lemma_absent_key(self.entries@, key@);
        }
        None
    }

    /// Whether `key` is recorded.
    pub fn contains_key(&self, key: &String) -> (r: bool)
        requires
            self.wf(),
        ensures
            r == self@.dom().contains(key@),
    {
        match self.get(key) {
            Some(_) => true,
            None => false,
        }
    }

    /// Record a first visit of `key`, which must be new, with count 1.
    pub fn insert_new(&mut self, key: String)
        requires
            old(self).wf(),
            !old(self)@.dom().contains(key@),
        ensures
            final(self).wf(),
            final(self)@ == old(self)@.insert(key@, 1),
    {
        proof {
            assert forall|i: int| 0 <= i < self.entries@.len() implies self.entries@[i].0@
                != key@ by {
                lemma_entry_in_dom(self.entries@, i);
            }
        }
        let ghost s0 = self.entries@;
        self.entries.push((key, 1));
        proof {
            assert(self.entries@.drop_last() =~= s0);
        }
    }

    /// Bump the count of `key`, which must be recorded, by one (saturating
    /// at the machine limit).
    pub fn increment(&mut self, key: &String)
        requires
            old(self).wf(),
            old(self)@.dom().contains(key@),
        ensures
            final(self).wf(),
            final(self)@ == old(self)@.insert(key@, cnt_inc(old(self)@[key@])),
    {
        let ghost s0 = self.entries@;
        let n = self.entries.len();
        let mut i: usize = 0;
        while i < n
            invariant
                self.wf(),
                self.entries@ == s0,
                old(self).entries@ == s0,
                n == self.entries@.len(),
                i <= n,
                forall|j: int| 0 <= j < i ==> self.entries@[j].0@ != key@,
            decreases n - i,
        {
            if self.entries[i].0 == *key {
                let c = self.entries[i].1;
                let newc = if c < usize::MAX {
                    c + 1
                } else {
                    c
                };
                proof {
                    lemma_entry_value(s0, i as int);
                }
                self.entries[i].1 = newc;
                proof {
                    let e = (s0[i as int].0, newc);
                    assert(self.entries@ =~= s0.update(i as int, e));
                    lemma_update_entry(s0, i as int, e);
                    assert(s0[i as int].0@ == key@);
                    assert(old(self)@.contains_pair(key@, c as nat));
                    assert(e.1 as nat == cnt_inc(old(self)@[key@]));
                    assert(self@ == old(self)@.insert(key@, cnt_inc(old(self)@[key@])));
                    assert(keys_unique(self.entries@));
                }
                return ;
            }
            i = i + 1;
        }
        proof {
            lemma_absent_key(s0, key@);
        }
    }

    /// Whether nothing was ever recorded.
    pub fn is_empty(&self) -> (r: bool)
        requires
            self.wf(),
        ensures
            r == (self@.dom() == Set::<Seq<char>>::empty()),
    {
        if self.entries.len() == 0 {
            proof {
                assert(self@.dom() =~= Set::<Seq<char>>::empty());
            }
            true
        } else {
            proof {
                lemma_entry_in_dom(self.entries@, 0);
                assert(self@.dom() != Set::<Seq<char>>::empty());
            }
            false
        }
    }

    /// The recorded pairs, one per key, in unspecified order.
    pub fn pairs(&self) -> (r: Vec<(String, usize)>)
        requires
            self.wf(),
        ensures
            forall|i: int|
                0 <= i < r@.len() ==> self@.contains_pair(#[trigger] (r@[i].0@), r@[i].1 as nat),
            forall|i: int, j: int| 0 <= i < j < r@.len() ==> r@[i].0@ != r@[j].0@,
            forall|k: Seq<char>|
                self@.dom().contains(k) ==> exists|i: int|
                    0 <= i < r@.len() && #[trigger] (r@[i].0@) == k,
    {
        let n = self.entries.len();
        let mut r: Vec<(String, usize)> = Vec::new();
        let mut i: usize = 0;
        while i < n
            invariant
                self.wf(),
                n == self.entries@.len(),
                i <= n,
                r@ =~= self.entries@.take(i as int),
            decreases n - i,
        {
            let key = self.entries[i].0.clone();
            let cnt = self.entries[i].1;
            r.push((key, cnt));
            i = i + 1;
            proof {
                assert(r@ =~= self.entries@.take(i as int));
            }
        }
        proof {
            assert(r@ =~= self.entries@);
            assert forall|i2: int| 0 <= i2 < r@.len() implies self@.contains_pair(
                #[trigger] (r@[i2].0@),
                r@[i2].1 as nat,
            ) by {
                lemma_entry_value(self.entries@, i2);
            }
            assert forall|k: Seq<char>| self@.dom().contains(k) implies exists|i2: int|
                0 <= i2 < r@.len() && #[trigger] (r@[i2].0@) == k by {
                if forall|i2: int| 0 <= i2 < r@.len() ==> #[trigger] (r@[i2].0@) != k {
                    lemma_absent_key(self.entries@, k);
                }
            }
        }
        r
    }
}

} // verus!
