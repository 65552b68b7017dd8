//! Key-indexed tables over association lists.
//!
//! The ledger's four storage tables are modelled as lists of key/value pairs
//! with pairwise-distinct keys; each table's ghost view is the finite `Map`
//! the list denotes. `NameTable` is keyed by 32-byte name buffers,
//! `AccountTable` by account ids.

use vstd::prelude::*;

use crate::name::bytes_eq;

verus! {

/// The map an association list denotes, later entries shadowing earlier ones
/// (with distinct keys nothing is shadowed).
pub open spec fn assoc_view<V: DeepView>(entries: Seq<(Vec<u8>, V)>) -> Map<
    Seq<u8>,
    <V as DeepView>::V,
>
    decreases entries.len(),
{
    if entries.len() == 0 {
        Map::empty()
    } else {
        assoc_view(entries.drop_last()).insert(
            entries.last().0@,
            entries.last().1.deep_view(),
        )
    }
}

/// No two entries share a key.
pub open spec fn distinct_keys<V>(entries: Seq<(Vec<u8>, V)>) -> bool {
    forall|i: int, j: int|
        0 <= i < j < entries.len() ==> (#[trigger] entries[i].0@) != (#[trigger] entries[j].0@)
}

proof fn lemma_assoc_contains<V: DeepView>(entries: Seq<(Vec<u8>, V)>, k: Seq<u8>)
    ensures
        assoc_view(entries).contains_key(k) <==> exists|i: int|
            0 <= i < entries.len() && (#[trigger] entries[i].0@) == k,
    decreases entries.len(),
{
    if entries.len() > 0 {
        let pre = entries.drop_last();
        lemma_assoc_contains(pre, k);
        if entries.last().0@ == k {
            assert(entries[entries.len() - 1].0@ == k);
        } else {
            if exists|i: int| 0 <= i < pre.len() && (#[trigger] pre[i].0@) == k {
                let i = choose|i: int| 0 <= i < pre.len() && (#[trigger] pre[i].0@) == k;
                assert(entries[i].0@ == k);
            }
            if exists|i: int| 0 <= i < entries.len() && (#[trigger] entries[i].0@) == k {
                let i = choose|i: int| 0 <= i < entries.len() && (#[trigger] entries[i].0@) == k;
                assert(i < entries.len() - 1);
                assert(pre[i].0@ == k);
            }
        }
    }
}

proof fn lemma_distinct_drop_last<V>(entries: Seq<(Vec<u8>, V)>)
    requires
        distinct_keys(entries),
        entries.len() > 0,
    ensures
        distinct_keys(entries.drop_last()),
{
    let pre = entries.drop_last();
    assert forall|i: int, j: int| 0 <= i < j < pre.len() implies (#[trigger] pre[i].0@)
        != (#[trigger] pre[j].0@) by {
        assert(pre[i] == entries[i]);
        assert(pre[j] == entries[j]);
    }
}

proof fn lemma_assoc_index<V: DeepView>(entries: Seq<(Vec<u8>, V)>, i: int, k: Seq<u8>)
    requires
        distinct_keys(entries),
        0 <= i < entries.len(),
        entries[i].0@ == k,
    ensures
        assoc_view(entries).contains_key(k),
        assoc_view(entries)[k] == entries[i].1.deep_view(),
    decreases entries.len(),
{
    let pre = entries.drop_last();
    if i == entries.len() - 1 {
    } else {
        assert(entries.last().0@ != k);
        lemma_distinct_drop_last(entries);
        assert(pre[i] == entries[i]);
        lemma_assoc_index(pre, i, k);
    }
}

proof fn lemma_assoc_push<V: DeepView>(entries: Seq<(Vec<u8>, V)>, p: (Vec<u8>, V))
    ensures
        assoc_view(entries.push(p)) == assoc_view(entries).insert(p.0@, p.1.deep_view()),
{
    let l = entries.push(p);
    assert(l.drop_last() =~= entries);
    assert(l.last() == p);
}

proof fn lemma_distinct_push<V>(entries: Seq<(Vec<u8>, V)>, p: (Vec<u8>, V))
    requires
        distinct_keys(entries),
        forall|j: int| 0 <= j < entries.len() ==> (#[trigger] entries[j].0@) != p.0@,
    ensures
        distinct_keys(entries.push(p)),
{
    let l = entries.push(p);
    assert forall|i: int, j: int| 0 <= i < j < l.len() implies (#[trigger] l[i].0@)
        != (#[trigger] l[j].0@) by {
        assert(l[i] == entries[i]);
        if j < l.len() - 1 {
            assert(l[j] == entries[j]);
        } else {
            assert(l[j] == p);
        }
    }
}

proof fn lemma_distinct_remove<V>(entries: Seq<(Vec<u8>, V)>, i: int)
    requires
        distinct_keys(entries),
        0 <= i < entries.len(),
    ensures
        distinct_keys(entries.remove(i)),
        forall|j: int| 0 <= j < entries.remove(i).len() ==> (#[trigger] entries.remove(i)[j].0@)
            != entries[i].0@,
    decreases entries.len(),
{
    let l = entries.remove(i);
    assert forall|a: int, b: int| 0 <= a < b < l.len() implies (#[trigger] l[a].0@)
        != (#[trigger] l[b].0@) by {
        let a2: int = if a < i { a } else { a + 1 };
        let b2: int = if b < i { b } else { b + 1 };
        assert(l[a] == entries[a2]);
        assert(l[b] == entries[b2]);
    }
    assert forall|j: int| 0 <= j < l.len() implies (#[trigger] l[j].0@) != entries[i].0@ by {
        let j2: int = if j < i { j } else { j + 1 };
        assert(l[j] == entries[j2]);
    }
}

proof fn lemma_assoc_remove<V: DeepView>(entries: Seq<(Vec<u8>, V)>, i: int, k: Seq<u8>)
    requires
        distinct_keys(entries),
        0 <= i < entries.len(),
        entries[i].0@ == k,
    ensures
        assoc_view(entries.remove(i)) == assoc_view(entries).remove(k),
    decreases entries.len(),
{
    let pre = entries.drop_last();
    lemma_distinct_drop_last(entries);
    if i == entries.len() - 1 {
        assert(entries.remove(i) =~= pre);
        lemma_assoc_contains(pre, k);
        if assoc_view(pre).contains_key(k) {
            let j = choose|j: int| 0 <= j < pre.len() && (#[trigger] pre[j].0@) == k;
            assert(entries[j].0@ == k);
            assert(false);
        }
        assert(assoc_view(entries).remove(k) =~= assoc_view(pre));
    } else {
        let l2 = entries.remove(i);
        assert forall|j: int| 0 <= j < l2.len() implies l2[j] == (if j < i {
            entries[j]
        } else {
            entries[j + 1]
        }) by {}
        assert(l2.last() == entries.last());
        assert(l2.drop_last() =~= pre.remove(i));
        assert(pre[i] == entries[i]);
        lemma_assoc_remove(pre, i, k);
        let lk = entries.last().0@;
        let lv = entries.last().1.deep_view();
        assert(lk != k);
        assert(assoc_view(pre).remove(k).insert(lk, lv) =~= assoc_view(pre).insert(
            lk,
            lv,
        ).remove(k));
        assert(assoc_view(l2) == assoc_view(l2.drop_last()).insert(
            l2.last().0@,
            l2.last().1.deep_view(),
        ));
    }
}

/// A table keyed by 32-byte name buffers.
pub struct NameTable<V> {
    entries: Vec<(Vec<u8>, V)>,
}

impl<V: DeepView> View for NameTable<V> {
    type V = Map<Seq<u8>, <V as DeepView>::V>;

    closed spec fn view(&self) -> Map<Seq<u8>, <V as DeepView>::V> {
        assoc_view(self.entries@)
    }
}

impl<V: DeepView> NameTable<V> {
    /// Keys are pairwise distinct, so the list denotes its map faithfully.
    pub closed spec fn wf(&self) -> bool {
        distinct_keys(self.entries@)
    }

    pub fn new() -> (t: Self)
        ensures
            t.wf(),
            t@ == Map::<Seq<u8>, <V as DeepView>::V>::empty(),
    {
        NameTable { entries: Vec::new() }
    }

    fn find(&self, k: &Vec<u8>) -> (r: Option<usize>)
        ensures
            match r {
                Some(i) => i < self.entries@.len() && self.entries@[i as int].0@ == k@,
                None => forall|i: int|
                    0 <= i < self.entries@.len() ==> (#[trigger] self.entries@[i].0@) != k@,
            },
    {
        let n = self.entries.len();
        let mut i: usize = 0;
        while i < n
            invariant
                n == self.entries@.len(),
                0 <= i <= n,
                forall|j: int| 0 <= j < i ==> (#[trigger] self.entries@[j].0@) != k@,
            decreases n - i,
        {
            if bytes_eq(&self.entries[i].0, k) {
                return Some(i);
            }
            i = i + 1;
        }
        None
    }

    pub fn contains_key(&self, k: &Vec<u8>) -> (r: bool)
        ensures
            r == self@.contains_key(k@),
    {
        proof {
            lemma_assoc_contains(self.entries@, k@);
        }
        match self.find(k) {
            Some(i) => {
                proof {
                    assert(self.entries@[i as int].0@ == k@);
                }
                true
            },
            None => false,
        }
    }

    pub fn get(&self, k: &Vec<u8>) -> (r: Option<&V>)
        requires
            self.wf(),
        ensures
            match r {
                Some(v) => self@.contains_key(k@) && v.deep_view() == self@[k@],
                None => !self@.contains_key(k@),
            },
    {
        proof {
            lemma_assoc_contains(self.entries@, k@);
        }
        match self.find(k) {
            Some(i) => {
                proof {
                    lemma_assoc_index(self.entries@, i as int, k@);
                }
                Some(&self.entries[i].1)
            },
            None => None,
        }
    }

    /// Removes the entry under `k` and hands its value out.
    pub fn take_value(&mut self, k: &Vec<u8>) -> (r: Option<V>)
        requires
            old(self).wf(),
        ensures
            final(self).wf(),
            match r {
                Some(v) => old(self)@.contains_key(k@) && v.deep_view() == old(self)@[k@]
                    && final(self)@ == old(self)@.remove(k@),
                None => !old(self)@.contains_key(k@) && *final(self) == *old(self),
            },
    {
        proof {
            lemma_assoc_contains(self.entries@, k@);
        }
        match self.find(k) {
            Some(i) => {
                proof {
                    lemma_assoc_index(self.entries@, i as int, k@);
                    lemma_assoc_remove(self.entries@, i as int, k@);
                    lemma_distinct_remove(self.entries@, i as int);
                }
                let p = self.entries.remove(i);
                Some(p.1)
            },
            None => None,
        }
    }

    /// Inserts or replaces the value under `k`.
    pub fn set(&mut self, k: Vec<u8>, v: V)
        requires
            old(self).wf(),
        ensures
            final(self).wf(),
            final(self)@ == old(self)@.insert(k@, v.deep_view()),
    {
        match self.find(&k) {
            Some(i) => {
                proof {
                    lemma_assoc_index(self.entries@, i as int, k@);
                    lemma_assoc_remove(self.entries@, i as int, k@);
                    lemma_distinct_remove(self.entries@, i as int);
                }
                let _replaced = self.entries.remove(i);
                let ghost pre = self.entries@;
                self.entries.push((k, v));
                proof {
                    lemma_assoc_push(pre, self.entries@.last());
                    lemma_distinct_push(pre, self.entries@.last());
                    assert(final(self)@ =~= old(self)@.insert(k@, v.deep_view()));
                }
            },
            None => {
                let ghost pre = self.entries@;
                self.entries.push((k, v));
                proof {
                    lemma_assoc_push(pre, self.entries@.last());
                    lemma_distinct_push(pre, self.entries@.last());
                }
            },
        }
    }

    /// Removes the entry under `k`, if any.
    pub fn remove_key(&mut self, k: &Vec<u8>)
        requires
            old(self).wf(),
        ensures
            final(self).wf(),
            final(self)@ == old(self)@.remove(k@),
    {
        proof {
            lemma_assoc_contains(self.entries@, k@);
        }
        match self.find(k) {
            Some(i) => {
                proof {
                    lemma_assoc_remove(self.entries@, i as int, k@);
                    lemma_distinct_remove(self.entries@, i as int);
                }
                let _removed = self.entries.remove(i);
            },
            None => {
                proof {
                    assert(old(self)@.remove(k@) =~= old(self)@);
                }
            },
        }
    }
}

/// A byte buffer's deep view is its view.
pub proof fn lemma_vec_u8_deep(v: Vec<u8>)
    ensures
        v.deep_view() == v@,
{
    assert(v.deep_view() =~= v@);
}

/// A name list's deep view, element by element.
pub proof fn lemma_name_list_deep(l: Vec<Vec<u8>>)
    ensures
        l.deep_view().len() == l@.len(),
        forall|i: int| 0 <= i < l@.len() ==> (#[trigger] l.deep_view()[i]) == l@[i]@,
{
    assert forall|i: int| 0 <= i < l@.len() implies (#[trigger] l.deep_view()[i]) == l@[i]@ by {
        assert(l@[i].deep_view() =~= l@[i]@);
    }
}

/// The map an account-keyed association list denotes.
pub open spec fn acct_assoc_view(entries: Seq<(u64, Vec<Vec<u8>>)>) -> Map<u64, Seq<Seq<u8>>>
    decreases entries.len(),
{
    if entries.len() == 0 {
        Map::empty()
    } else {
        acct_assoc_view(entries.drop_last()).insert(
            entries.last().0,
            entries.last().1.deep_view(),
        )
    }
}

/// No two entries share an account id.
pub open spec fn distinct_accts(entries: Seq<(u64, Vec<Vec<u8>>)>) -> bool {
    forall|i: int, j: int|
        0 <= i < j < entries.len() ==> (#[trigger] entries[i].0) != (#[trigger] entries[j].0)
}

proof fn lemma_acct_contains(entries: Seq<(u64, Vec<Vec<u8>>)>, k: u64)
    ensures
        acct_assoc_view(entries).contains_key(k) <==> exists|i: int|
            0 <= i < entries.len() && (#[trigger] entries[i].0) == k,
    decreases entries.len(),
{
    if entries.len() > 0 {
        let pre = entries.drop_last();
        lemma_acct_contains(pre, k);
        if entries.last().0 == k {
            assert(entries[entries.len() - 1].0 == k);
        } else {
            if exists|i: int| 0 <= i < pre.len() && (#[trigger] pre[i].0) == k {
                let i = choose|i: int| 0 <= i < pre.len() && (#[trigger] pre[i].0) == k;
                assert(entries[i].0 == k);
            }
            if exists|i: int| 0 <= i < entries.len() && (#[trigger] entries[i].0) == k {
                let i = choose|i: int| 0 <= i < entries.len() && (#[trigger] entries[i].0) == k;
                assert(i < entries.len() - 1);
                assert(pre[i].0 == k);
            }
        }
    }
}

proof fn lemma_acct_drop_last(entries: Seq<(u64, Vec<Vec<u8>>)>)
    requires
        distinct_accts(entries),
        entries.len() > 0,
    ensures
        distinct_accts(entries.drop_last()),
{
    let pre = entries.drop_last();
    assert forall|i: int, j: int| 0 <= i < j < pre.len() implies (#[trigger] pre[i].0)
        != (#[trigger] pre[j].0) by {
        assert(pre[i] == entries[i]);
        assert(pre[j] == entries[j]);
    }
}

proof fn lemma_acct_index(entries: Seq<(u64, Vec<Vec<u8>>)>, i: int, k: u64)
    requires
        distinct_accts(entries),
        0 <= i < entries.len(),
        entries[i].0 == k,
    ensures
        acct_assoc_view(entries).contains_key(k),
        acct_assoc_view(entries)[k] == entries[i].1.deep_view(),
    decreases entries.len(),
{
    let pre = entries.drop_last();
    if i == entries.len() - 1 {
    } else {
        assert(entries.last().0 != k);
        lemma_acct_drop_last(entries);
        assert(pre[i] == entries[i]);
        lemma_acct_index(pre, i, k);
    }
}

proof fn lemma_acct_push(entries: Seq<(u64, Vec<Vec<u8>>)>, p: (u64, Vec<Vec<u8>>))
    ensures
        acct_assoc_view(entries.push(p)) == acct_assoc_view(entries).insert(p.0, p.1.deep_view()),
{
    let l = entries.push(p);
    assert(l.drop_last() =~= entries);
    assert(l.last() == p);
}

proof fn lemma_acct_distinct_push(entries: Seq<(u64, Vec<Vec<u8>>)>, p: (u64, Vec<Vec<u8>>))
    requires
        distinct_accts(entries),
        forall|j: int| 0 <= j < entries.len() ==> (#[trigger] entries[j].0) != p.0,
    ensures
        distinct_accts(entries.push(p)),
{
    let l = entries.push(p);
    assert forall|i: int, j: int| 0 <= i < j < l.len() implies (#[trigger] l[i].0)
        != (#[trigger] l[j].0) by {
        assert(l[i] == entries[i]);
        if j < l.len() - 1 {
            assert(l[j] == entries[j]);
        } else {
            assert(l[j] == p);
        }
    }
}

proof fn lemma_acct_distinct_remove(entries: Seq<(u64, Vec<Vec<u8>>)>, i: int)
    requires
        distinct_accts(entries),
        0 <= i < entries.len(),
    ensures
        distinct_accts(entries.remove(i)),
        forall|j: int| 0 <= j < entries.remove(i).len() ==> (#[trigger] entries.remove(i)[j].0)
            != entries[i].0,
{
    let l = entries.remove(i);
    assert forall|a: int, b: int| 0 <= a < b < l.len() implies (#[trigger] l[a].0)
        != (#[trigger] l[b].0) by {
        let a2: int = if a < i { a } else { a + 1 };
        let b2: int = if b < i { b } else { b + 1 };
        assert(l[a] == entries[a2]);
        assert(l[b] == entries[b2]);
    }
    assert forall|j: int| 0 <= j < l.len() implies (#[trigger] l[j].0) != entries[i].0 by {
        let j2: int = if j < i { j } else { j + 1 };
        assert(l[j] == entries[j2]);
    }
}

proof fn lemma_acct_remove(entries: Seq<(u64, Vec<Vec<u8>>)>, i: int, k: u64)
    requires
        distinct_accts(entries),
        0 <= i < entries.len(),
        entries[i].0 == k,
    ensures
        acct_assoc_view(entries.remove(i)) == acct_assoc_view(entries).remove(k),
    decreases entries.len(),
{
    let pre = entries.drop_last();
    lemma_acct_drop_last(entries);
    if i == entries.len() - 1 {
        assert(entries.remove(i) =~= pre);
        lemma_acct_contains(pre, k);
        if acct_assoc_view(pre).contains_key(k) {
            let j = choose|j: int| 0 <= j < pre.len() && (#[trigger] pre[j].0) == k;
            assert(entries[j].0 == k);
            assert(false);
        }
        assert(acct_assoc_view(entries).remove(k) =~= acct_assoc_view(pre));
    } else {
        let l2 = entries.remove(i);
        assert forall|j: int| 0 <= j < l2.len() implies l2[j] == (if j < i {
            entries[j]
        } else {
            entries[j + 1]
        }) by {}
        assert(l2.last() == entries.last());
        assert(l2.drop_last() =~= pre.remove(i));
        assert(pre[i] == entries[i]);
        lemma_acct_remove(pre, i, k);
        let lk = entries.last().0;
        let lv = entries.last().1.deep_view();
        assert(lk != k);
        assert(acct_assoc_view(pre).remove(k).insert(lk, lv) =~= acct_assoc_view(pre).insert(
            lk,
            lv,
        ).remove(k));
        assert(acct_assoc_view(l2) == acct_assoc_view(l2.drop_last()).insert(
            l2.last().0,
            l2.last().1.deep_view(),
        ));
    }
}

/// A table keyed by account ids, each holding a list of owned names.
pub struct AccountTable {
    entries: Vec<(u64, Vec<Vec<u8>>)>,
}

impl View for AccountTable {
    type V = Map<u64, Seq<Seq<u8>>>;

    closed spec fn view(&self) -> Map<u64, Seq<Seq<u8>>> {
        acct_assoc_view(self.entries@)
    }
}

impl AccountTable {
    /// Keys are pairwise distinct, so the list denotes its map faithfully.
    pub closed spec fn wf(&self) -> bool {
        distinct_accts(self.entries@)
    }

    pub fn new() -> (t: Self)
        ensures
            t.wf(),
            t@ == Map::<u64, Seq<Seq<u8>>>::empty(),
    {
        AccountTable { entries: Vec::new() }
    }

    fn find(&self, k: u64) -> (r: Option<usize>)
        ensures
            match r {
                Some(i) => i < self.entries@.len() && self.entries@[i as int].0 == k,
                None => forall|i: int|
                    0 <= i < self.entries@.len() ==> (#[trigger] self.entries@[i].0) != k,
            },
    {
        let n = self.entries.len();
        let mut i: usize = 0;
        while i < n
            invariant
                n == self.entries@.len(),
                0 <= i <= n,
                forall|j: int| 0 <= j < i ==> (#[trigger] self.entries@[j].0) != k,
            decreases n - i,
        {
            if self.entries[i].0 == k {
                return Some(i);
            }
            i = i + 1;
        }
        None
    }

    pub fn contains_key(&self, k: u64) -> (r: bool)
        ensures
            r == self@.contains_key(k),
    {
        proof {
            lemma_acct_contains(self.entries@, k);
        }
        match self.find(k) {
            Some(i) => {
                proof {
                    assert(self.entries@[i as int].0 == k);
                }
                true
            },
            None => false,
        }
    }

    pub fn get(&self, k: u64) -> (r: Option<&Vec<Vec<u8>>>)
        requires
            self.wf(),
        ensures
            match r {
                Some(v) => self@.contains_key(k) && v.deep_view() == self@[k],
                None => !self@.contains_key(k),
            },
    {
        proof {
            lemma_acct_contains(self.entries@, k);
        }
        match self.find(k) {
            Some(i) => {
                proof {
                    lemma_acct_index(self.entries@, i as int, k);
                }
                Some(&self.entries[i].1)
            },
            None => None,
        }
    }

    /// Removes the entry under `k` and hands its list out.
    pub fn take_value(&mut self, k: u64) -> (r: Option<Vec<Vec<u8>>>)
        requires
            old(self).wf(),
        ensures
            final(self).wf(),
            match r {
                Some(v) => old(self)@.contains_key(k) && v.deep_view() == old(self)@[k]
                    && final(self)@ == old(self)@.remove(k),
                None => !old(self)@.contains_key(k) && *final(self) == *old(self),
            },
    {
        proof {
            lemma_acct_contains(self.entries@, k);
        }
        match self.find(k) {
            Some(i) => {
                proof {
                    lemma_acct_index(self.entries@, i as int, k);
                    lemma_acct_remove(self.entries@, i as int, k);
                    lemma_acct_distinct_remove(self.entries@, i as int);
                }
                let p = self.entries.remove(i);
                Some(p.1)
            },
            None => None,
        }
    }

    /// Inserts or replaces the list under `k`.
    pub fn set(&mut self, k: u64, v: Vec<Vec<u8>>)
        requires
            old(self).wf(),
        ensures
            final(self).wf(),
            final(self)@ == old(self)@.insert(k, v.deep_view()),
    {
        match self.find(k) {
            Some(i) => {
                proof {
                    lemma_acct_index(self.entries@, i as int, k);
                    lemma_acct_remove(self.entries@, i as int, k);
                    lemma_acct_distinct_remove(self.entries@, i as int);
                }
                let _replaced = self.entries.remove(i);
                let ghost pre = self.entries@;
                self.entries.push((k, v));
                proof {
                    lemma_acct_push(pre, self.entries@.last());
                    lemma_acct_distinct_push(pre, self.entries@.last());
                    assert(final(self)@ =~= old(self)@.insert(k, v.deep_view()));
                }
            },
            None => {
                let ghost pre = self.entries@;
                self.entries.push((k, v));
                proof {
                    lemma_acct_push(pre, self.entries@.last());
                    lemma_acct_distinct_push(pre, self.entries@.last());
                }
            },
        }
    }

    /// Removes the entry under `k`, if any.
    pub fn remove_key(&mut self, k: u64)
        requires
            old(self).wf(),
        ensures
            final(self).wf(),
            final(self)@ == old(self)@.remove(k),
    {
        proof {
            lemma_acct_contains(self.entries@, k);
        }
        match self.find(k) {
            Some(i) => {
                proof {
                    lemma_acct_remove(self.entries@, i as int, k);
                    lemma_acct_distinct_remove(self.entries@, i as int);
                }
                let _removed = self.entries.remove(i);
            },
            None => {
                proof {
                    assert(old(self)@.remove(k) =~= old(self)@);
                }
            },
        }
    }
}

} // verus!
