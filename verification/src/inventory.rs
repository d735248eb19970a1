//! Point-in-time stock snapshots: a mapping from normalized resource key to
//! quantity on hand. A snapshot is rebuilt fresh from ledger rows on each
//! read and is also used for the requirement map of a posted request. Keys
//! are unique and already normalized; a key that is absent stocks zero.

use vstd::prelude::*;
use crate::normalize::normalize_spec;

verus! {

/// The stock a list of entries gives `key`: the first matching entry's
/// amount, or zero if none matches.
pub open spec fn stock_in(s: Seq<(String, u64)>, key: Seq<char>) -> u64
    decreases s.len(),
{
    if s.len() == 0 {
        0
    } else if s[0].0@ == key {
        s[0].1
    } else {
        stock_in(s.drop_first(), key)
    }
}

/// Whether some entry carries `key`.
pub open spec fn has_key_in(s: Seq<(String, u64)>, key: Seq<char>) -> bool
    decreases s.len(),
{
    if s.len() == 0 {
        false
    } else {
        s[0].0@ == key || has_key_in(s.drop_first(), key)
    }
}

/// No two entries carry the same key.
pub open spec fn unique_keys(s: Seq<(String, u64)>) -> bool {
    forall|a: int, b: int| 0 <= a < b < s.len() ==> s[a].0@ != s[b].0@
}

/// A mapping from normalized resource key to unsigned quantity.
#[derive(Debug)]
pub struct Inventory {
    entries: Vec<(String, u64)>,
}

impl View for Inventory {
    type V = Seq<(String, u64)>;

    closed spec fn view(&self) -> Seq<(String, u64)> {
        self.entries@
    }
}

impl Inventory {
    /// Entries carry distinct keys, each already in normalized form.
    pub open spec fn wf(&self) -> bool {
        &&& unique_keys(self@)
        &&& forall|a: int|
            0 <= a < self@.len() ==> #[trigger] self@[a].0@ == normalize_spec(self@[a].0@)
    }

    /// The stock this snapshot gives `key`; zero when absent.
    pub open spec fn stock(&self, key: Seq<char>) -> u64 {
        stock_in(self@, key)
    }

    /// Whether `key` has an entry (its stock may still be zero).
    pub open spec fn contains(&self, key: Seq<char>) -> bool {
        has_key_in(self@, key)
    }

    /// An empty snapshot: every key stocks zero.
    pub fn new() -> (inv: Inventory)
        ensures
            inv.wf(),
            inv@ =~= Seq::<(String, u64)>::empty(),
    {
        Inventory { entries: Vec::new() }
    }

    /// The quantity on hand for a (not necessarily normalized) raw key.
    pub fn stock_of(&self, key: &String) -> (r: u64)
        ensures
            r == self.stock(key@),
    {
        let n = self.entries.len();
        let mut i: usize = 0;
        proof {
            assert(self@.skip(0) =~= self@);
        }
        while i < n
            invariant
                i <= n == self@.len(),
                stock_in(self@, key@) == stock_in(self@.skip(i as int), key@),
            decreases n - i,
        {
            if self.entries[i].0 == *key {
                proof {
                    assert(self@.skip(i as int)[0] == self@[i as int]);
                }
                return self.entries[i].1;
            }
            proof {
                assert(self@.skip(i as int).drop_first() =~= self@.skip(i as int + 1));
            }
            i = i + 1;
        }
        proof {
            assert(self@.skip(n as int) =~= Seq::<(String, u64)>::empty());
        }
        0
    }

    /// Whether a raw key has an entry.
    pub fn contains_key(&self, key: &String) -> (r: bool)
        ensures
            r == self.contains(key@),
    {
        let n = self.entries.len();
        let mut i: usize = 0;
        proof {
            assert(self@.skip(0) =~= self@);
        }
        while i < n
            invariant
                i <= n == self@.len(),
                has_key_in(self@, key@) == has_key_in(self@.skip(i as int), key@),
            decreases n - i,
        {
            if self.entries[i].0 == *key {
                proof {
                    assert(self@.skip(i as int)[0] == self@[i as int]);
                }
                return true;
            }
            proof {
                assert(self@.skip(i as int).drop_first() =~= self@.skip(i as int + 1));
            }
            i = i + 1;
        }
        proof {
            assert(self@.skip(n as int) =~= Seq::<(String, u64)>::empty());
        }
        false
    }

    /// The index of the entry holding a key, if any.
    fn find_index(&self, key: &String) -> (r: Option<usize>)
        ensures
            match r {
                Some(i) => i < self@.len() && self@[i as int].0@ == key@,
                None => forall|m: int| 0 <= m < self@.len() ==> #[trigger] self@[m].0@ != key@,
            },
    {
        let n = self.entries.len();
        let mut i: usize = 0;
        while i < n
            invariant
                i <= n == self@.len(),
                forall|m: int| 0 <= m < i ==> #[trigger] self@[m].0@ != key@,
            decreases n - i,
        {
            if self.entries[i].0 == *key {
                return Some(i);
            }
            i = i + 1;
        }
        None
    }

    /// Sets the stock of a normalized key, overwriting an existing entry or
    /// appending a new one. Every other key keeps its stock.
    pub fn set_stock(&mut self, key: String, amount: u64)
        requires
            old(self).wf(),
            key@ == normalize_spec(key@),
        ensures
            final(self).wf(),
            forall|k: Seq<char>|
                #[trigger] final(self).stock(k) == if k == key@ {
                    amount
                } else {
                    old(self).stock(k)
                },
            forall|k: Seq<char>|
                #[trigger] final(self).contains(k) == (k == key@ || old(self).contains(k)),
    {
        let ghost s0 = self@;
        match self.find_index(&key) {
            Some(i) => {
                proof {
                    lemma_key_at(s0, i as int);
                }
                self.entries[i] = (key, amount);
                proof {
                    let e = self@[i as int];
                    assert(self@ =~= s0.update(i as int, e));
                    assert forall|k: Seq<char>|
                        #[trigger] stock_in(self@, k) == (if k == e.0@ {
                            amount
                        } else {
                            stock_in(s0, k)
                        }) by {
                        lemma_stock_update_one(s0, i as int, e, k);
                    }
                    assert forall|k: Seq<char>|
                        #[trigger] has_key_in(self@, k) == has_key_in(s0, k) by {
                        lemma_stock_update_one(s0, i as int, e, k);
                    }
                    assert forall|a: int, b: int| 0 <= a < b < self@.len() implies self@[a].0@
                        != self@[b].0@ by {}
                    assert forall|a: int|
                        0 <= a < self@.len() implies #[trigger] self@[a].0@ == normalize_spec(
                        self@[a].0@,
                    ) by {}
                }
            },
            None => {
                proof {
                    lemma_no_key(s0, key@);
                }
                self.entries.push((key, amount));
                proof {
                    let e = self@[s0.len() as int];
                    assert(self@ =~= s0.push(e));
                    assert forall|k: Seq<char>|
                        #[trigger] stock_in(self@, k) == (if k == e.0@ {
                            amount
                        } else {
                            stock_in(s0, k)
                        }) by {
                        lemma_stock_push_one(s0, e, k);
                    }
                    assert forall|k: Seq<char>|
                        #[trigger] has_key_in(self@, k) == (k == e.0@ || has_key_in(s0, k)) by {
                        lemma_stock_push_one(s0, e, k);
                    }
                    assert forall|a: int, b: int| 0 <= a < b < self@.len() implies self@[a].0@
                        != self@[b].0@ by {
                        if b == s0.len() {
                            assert(self@[a] == s0[a]);
                        }
                    }
                    assert forall|a: int|
                        0 <= a < self@.len() implies #[trigger] self@[a].0@ == normalize_spec(
                        self@[a].0@,
                    ) by {
                        if a < s0.len() {
                            assert(self@[a] == s0[a]);
                        }
                    }
                }
            },
        }
    }

    /// How many entries the snapshot holds.
    pub fn len(&self) -> (r: usize)
        ensures
            r == self@.len(),
    {
        self.entries.len()
    }

    /// The entry at one index, for enumeration (write-back, settlement).
    pub fn entry_at(&self, i: usize) -> (r: (String, u64))
        requires
            i < self@.len(),
        ensures
            r.0 == self@[i as int].0 && r.1 == self@[i as int].1,
    {
        let e = &self.entries[i];
        (e.0.clone(), e.1)
    }
}

/// Updating the entry whose key view matches the replacement's moves that
/// key's stock to the new amount and no other key's.
proof fn lemma_stock_update_one(s: Seq<(String, u64)>, idx: int, e: (String, u64), k: Seq<char>)
    requires
        0 <= idx < s.len(),
        e.0@ == s[idx].0@,
        unique_keys(s),
    ensures
        stock_in(s.update(idx, e), k) == if k == e.0@ {
            e.1
        } else {
            stock_in(s, k)
        },
        has_key_in(s.update(idx, e), k) == has_key_in(s, k),
    decreases s.len(),
{
    let s2 = s.update(idx, e);
    if idx == 0 {
        assert(s2[0] == e);
        if k != e.0@ {
            assert(s2.drop_first() =~= s.drop_first());
        } else {
            if has_key_in(s, k) {
            }
        }
    } else {
        assert(s2[0] == s[0]);
        assert(s2.drop_first() =~= s.drop_first().update(idx - 1, e));
        assert forall|a: int, b: int| 0 <= a < b < s.drop_first().len() implies s.drop_first()[a].0@
            != s.drop_first()[b].0@ by {
            assert(s.drop_first()[a] == s[a + 1]);
            assert(s.drop_first()[b] == s[b + 1]);
        }
        assert(s.drop_first()[idx - 1] == s[idx]);
        lemma_stock_update_one(s.drop_first(), idx - 1, e, k);
        if k == e.0@ && s[0].0@ == k {
            // two entries would share the key, against uniqueness
            assert(s[0].0@ != s[idx].0@);
        }
    }
}

/// Appending an entry for an absent key gives that key the new amount and
/// leaves every other key's stock alone.
proof fn lemma_stock_push_one(s: Seq<(String, u64)>, e: (String, u64), k: Seq<char>)
    requires
        !has_key_in(s, e.0@),
    ensures
        stock_in(s.push(e), k) == if k == e.0@ {
            e.1
        } else {
            stock_in(s, k)
        },
        has_key_in(s.push(e), k) == (k == e.0@ || has_key_in(s, k)),
    decreases s.len(),
{
    let s2 = s.push(e);
    assert(s2.len() == s.len() + 1);
    if s.len() == 0 {
        assert(s2[0] == e);
        assert(s2.drop_first() =~= Seq::<(String, u64)>::empty());
        assert(stock_in(s2.drop_first(), k) == 0);
        assert(has_key_in(s2.drop_first(), k) == false);
        assert(stock_in(s, k) == 0);
        assert(has_key_in(s, k) == false);
        if k == e.0@ {
            assert(stock_in(s2, k) == s2[0].1);
        } else {
            assert(stock_in(s2, k) == stock_in(s2.drop_first(), k));
        }
    } else {
        assert(s2[0] == s[0]);
        assert(s2.drop_first() =~= s.drop_first().push(e));
        assert(!(s[0].0@ == e.0@));
        lemma_stock_push_one(s.drop_first(), e, k);
        if k == s[0].0@ {
            assert(stock_in(s2, k) == s2[0].1);
            assert(stock_in(s, k) == s[0].1);
        } else {
            assert(stock_in(s2, k) == stock_in(s2.drop_first(), k));
            assert(stock_in(s, k) == stock_in(s.drop_first(), k));
        }
    }
}

/// An entry at any index witnesses its key's presence.
proof fn lemma_key_at(s: Seq<(String, u64)>, idx: int)
    requires
        0 <= idx < s.len(),
    ensures
        has_key_in(s, s[idx].0@),
    decreases s.len(),
{
    if idx > 0 {
        assert(s.drop_first()[idx - 1] == s[idx]);
        lemma_key_at(s.drop_first(), idx - 1);
    }
}

/// A scan that found no entry for `key` shows the key is absent.
proof fn lemma_no_key(s: Seq<(String, u64)>, key: Seq<char>)
    requires
        forall|m: int| 0 <= m < s.len() ==> #[trigger] s[m].0@ != key,
    ensures
        !has_key_in(s, key),
    decreases s.len(),
{
    if s.len() > 0 {
        assert forall|m: int| 0 <= m < s.drop_first().len() implies #[trigger] s.drop_first()[m].0@
            != key by {
            assert(s.drop_first()[m] == s[m + 1]);
        }
        lemma_no_key(s.drop_first(), key);
    }
}

/// With unique keys, the entry at an index gives its key's stock.
pub proof fn lemma_index_stock(s: Seq<(String, u64)>, idx: int)
    requires
        0 <= idx < s.len(),
        unique_keys(s),
    ensures
        stock_in(s, s[idx].0@) == s[idx].1,
    decreases s.len(),
{
    if idx > 0 {
        assert(s.drop_first()[idx - 1] == s[idx]);
        assert forall|a: int, b: int| 0 <= a < b < s.drop_first().len() implies s.drop_first()[a].0@
            != s.drop_first()[b].0@ by {
            assert(s.drop_first()[a] == s[a + 1]);
            assert(s.drop_first()[b] == s[b + 1]);
        }
        lemma_index_stock(s.drop_first(), idx - 1);
        assert(s[0].0@ != s[idx].0@);
    }
}

/// A present key's stock is witnessed by some entry.
pub proof fn lemma_stock_witness(s: Seq<(String, u64)>, key: Seq<char>)
    requires
        has_key_in(s, key),
    ensures
        exists|i: int|
            0 <= i < s.len() && (#[trigger] s[i].0@) == key && stock_in(s, key) == s[i].1,
    decreases s.len(),
{
    if s[0].0@ == key {
        assert(s[0].0@ == key && stock_in(s, key) == s[0].1);
    } else {
        lemma_stock_witness(s.drop_first(), key);
        let i = choose|i: int|
            0 <= i < s.drop_first().len() && (#[trigger] s.drop_first()[i].0@) == key && stock_in(
                s.drop_first(),
                key,
            ) == s.drop_first()[i].1;
        assert(s[i + 1] == s.drop_first()[i]);
        assert(s[i + 1].0@ == key && stock_in(s, key) == s[i + 1].1);
    }
}

/// Appending an entry extends key presence by exactly that entry's key.
pub proof fn lemma_has_key_push(s: Seq<(String, u64)>, e: (String, u64), k: Seq<char>)
    ensures
        has_key_in(s.push(e), k) == (has_key_in(s, k) || e.0@ == k),
    decreases s.len(),
{
    let s2 = s.push(e);
    assert(s2.len() == s.len() + 1);
    if s.len() == 0 {
        assert(s2[0] == e);
        assert(s2.drop_first() =~= Seq::<(String, u64)>::empty());
        assert(has_key_in(s2.drop_first(), k) == false);
        assert(has_key_in(s, k) == false);
        assert(has_key_in(s2, k) == (s2[0].0@ == k || has_key_in(s2.drop_first(), k)));
    } else {
        assert(s2[0] == s[0]);
        assert(s2.drop_first() =~= s.drop_first().push(e));
        lemma_has_key_push(s.drop_first(), e, k);
        assert(has_key_in(s2, k) == (s2[0].0@ == k || has_key_in(s2.drop_first(), k)));
        assert(has_key_in(s, k) == (s[0].0@ == k || has_key_in(s.drop_first(), k)));
    }
}

/// An absent key stocks zero.
pub proof fn lemma_absent_stock_zero(s: Seq<(String, u64)>, key: Seq<char>)
    requires
        !has_key_in(s, key),
    ensures
        stock_in(s, key) == 0,
    decreases s.len(),
{
    if s.len() > 0 {
        lemma_absent_stock_zero(s.drop_first(), key);
    }
}

} // verus!
