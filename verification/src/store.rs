//! The transactional key/value store that both record trees persist into.
//!
//! The store keeps entries ordered by ascending 128-bit key, so a full scan
//! yields records in ascending address order.  A single transaction may be
//! open at a time: `begin_tx` snapshots the entries, `roll_back_tx` restores
//! the snapshot, `commit_tx` discards it.  Beginning a transaction inside a
//! transaction, and ending one outside a transaction, are rejected with
//! `TransactionStateError` rather than ignored.
//!
//! The entries live in memory.  An embedder that wants them on disk reads
//! the entry list out through `entry_count`, `key_at` and `value_at` and
//! writes loaded pairs back through `put`; the record encodings themselves
//! are fixed by the schema and scope modules.

use vstd::prelude::*;

use crate::error::IpamError;

verus! {

/// The entries of a store as a mathematical sequence of key/value pairs.
pub open spec fn entries_view(s: Seq<(u128, Vec<u8>)>) -> Seq<(u128, Seq<u8>)> {
    s.map_values(|e: (u128, Vec<u8>)| (e.0, e.1@))
}

/// Keys strictly ascend.
pub open spec fn entries_sorted(s: Seq<(u128, Seq<u8>)>) -> bool {
    forall|i: int, j: int| 0 <= i < j < s.len() ==> s[i].0 < s[j].0
}

/// What storing `(k, v)` does to an ordered entry list: replaces the value
/// under an existing key, otherwise inserts the pair at its ordered place.
pub open spec fn spec_put(s: Seq<(u128, Seq<u8>)>, k: u128, v: Seq<u8>) -> Seq<(u128, Seq<u8>)>
    decreases s.len(),
{
    if s.len() == 0 {
        seq![(k, v)]
    } else if s[0].0 < k {
        seq![s[0]] + spec_put(s.drop_first(), k, v)
    } else if s[0].0 == k {
        seq![(k, v)] + s.drop_first()
    } else {
        seq![(k, v)] + s
    }
}

/// Whether an entry list holds a key.
pub open spec fn has_key(s: Seq<(u128, Seq<u8>)>, k: u128) -> bool {
    exists|i: int| 0 <= i < s.len() && s[i].0 == k
}

/// Storing into the position found by a scan is `spec_put`: if the first
/// `pos` keys lie below `k`, then `spec_put` keeps that prefix, places
/// `(k, v)`, and keeps the rest (dropping an entry whose key equals `k`).
pub proof fn lemma_spec_put_at(s: Seq<(u128, Seq<u8>)>, k: u128, v: Seq<u8>, pos: int)
    requires
        0 <= pos <= s.len(),
        forall|j: int| 0 <= j < pos ==> s[j].0 < k,
        pos < s.len() ==> s[pos].0 >= k,
    ensures
        pos < s.len() && s[pos].0 == k ==> spec_put(s, k, v) =~= s.take(pos) + seq![(k, v)]
            + s.skip(pos + 1),
        !(pos < s.len() && s[pos].0 == k) ==> spec_put(s, k, v) =~= s.take(pos) + seq![(k, v)]
            + s.skip(pos),
    decreases pos,
{
    if pos == 0 {
        if s.len() == 0 {
            assert(spec_put(s, k, v) =~= seq![(k, v)]);
        }
    } else {
        let d = s.drop_first();
        lemma_spec_put_at(d, k, v, pos - 1);
        assert(d.take(pos - 1) =~= s.take(pos).drop_first());
        assert(d.skip(pos - 1) =~= s.skip(pos));
        if pos < s.len() && s[pos].0 == k {
            assert(d[pos - 1].0 == k);
            assert(d.skip(pos) =~= s.skip(pos + 1));
            assert(spec_put(d, k, v) =~= d.take(pos - 1) + seq![(k, v)] + d.skip(pos));
            assert(spec_put(s, k, v) =~= s.take(pos) + seq![(k, v)] + s.skip(pos + 1));
        } else {
            assert(spec_put(d, k, v) =~= d.take(pos - 1) + seq![(k, v)] + d.skip(pos - 1));
            assert(spec_put(s, k, v) =~= s.take(pos) + seq![(k, v)] + s.skip(pos));
        }
    }
}

/// `spec_put` keeps the keys strictly ascending.
pub proof fn lemma_spec_put_sorted(s: Seq<(u128, Seq<u8>)>, k: u128, v: Seq<u8>)
    requires
        entries_sorted(s),
    ensures
        entries_sorted(spec_put(s, k, v)),
    decreases s.len(),
{
    if s.len() == 0 {
    } else if s[0].0 < k {
        lemma_spec_put_sorted(s.drop_first(), k, v);
        let r = spec_put(s.drop_first(), k, v);
        assert forall|i: int, j: int|
            0 <= i < j < spec_put(s, k, v).len() implies spec_put(s, k, v)[i].0 < spec_put(
            s,
            k,
            v,
        )[j].0 by {
            if i > 0 {
                assert(spec_put(s, k, v)[i] == r[i - 1]);
                assert(spec_put(s, k, v)[j] == r[j - 1]);
            } else {
                assert(spec_put(s, k, v)[j] == r[j - 1]);
                lemma_spec_put_keys(s.drop_first(), k, v, j - 1);
            }
        }
    }
}

/// Every key of `spec_put(s, k, v)` is `k` or a key of `s`.
pub proof fn lemma_spec_put_keys(s: Seq<(u128, Seq<u8>)>, k: u128, v: Seq<u8>, i: int)
    requires
        0 <= i < spec_put(s, k, v).len(),
    ensures
        spec_put(s, k, v)[i].0 == k || has_key(s, spec_put(s, k, v)[i].0),
    decreases s.len(),
{
    if s.len() == 0 {
    } else if s[0].0 < k {
        if i > 0 {
            lemma_spec_put_keys(s.drop_first(), k, v, i - 1);
            let r = spec_put(s.drop_first(), k, v);
            let x = r[i - 1].0;
            if x != k {
                let w = choose|w: int| 0 <= w < s.drop_first().len() && s.drop_first()[w].0 == x;
                assert(s[w + 1].0 == x);
            }
        } else {
            assert(s[0].0 == spec_put(s, k, v)[0].0);
        }
    } else if s[0].0 == k {
        if i > 0 {
            assert(s[i].0 == spec_put(s, k, v)[i].0);
        }
    } else {
        if i > 0 {
            assert(s[i - 1].0 == spec_put(s, k, v)[i].0);
        }
    }
}

/// Storing under a key above every present key appends the pair.
pub proof fn lemma_spec_put_append(s: Seq<(u128, Seq<u8>)>, k: u128, v: Seq<u8>)
    requires
        forall|j: int| 0 <= j < s.len() ==> s[j].0 < k,
    ensures
        spec_put(s, k, v) =~= s.push((k, v)),
    decreases s.len(),
{
    if s.len() == 0 {
    } else {
        lemma_spec_put_append(s.drop_first(), k, v);
        assert(spec_put(s, k, v) =~= seq![s[0]] + s.drop_first().push((k, v)));
        assert(seq![s[0]] + s.drop_first().push((k, v)) =~= s.push((k, v)));
    }
}

/// An ordered, transactional store of byte-string values keyed by 128-bit
/// address identifiers.
pub struct Store {
    entries: Vec<(u128, Vec<u8>)>,
    snapshot: Option<Vec<(u128, Vec<u8>)>>,
}

impl Store {
    /// The current entries, ordered by key.
    pub closed spec fn entries_seq(self) -> Seq<(u128, Seq<u8>)> {
        entries_view(self.entries@)
    }

    /// Whether a transaction is open.
    pub closed spec fn in_tx(self) -> bool {
        self.snapshot is Some
    }

    /// The entries as they stood when the open transaction began.
    pub closed spec fn tx_base(self) -> Seq<(u128, Seq<u8>)>
        recommends
            self.in_tx(),
    {
        entries_view(self.snapshot->Some_0@)
    }

    /// Entries ascend by key, in the live list and in the snapshot.
    pub closed spec fn wf(self) -> bool {
        &&& entries_sorted(self.entries_seq())
        &&& self.in_tx() ==> entries_sorted(self.tx_base())
    }

    /// A fresh, empty store with no open transaction.
    pub fn open_temp() -> (r: Store)
        ensures
            r.wf(),
            !r.in_tx(),
            r.entries_seq() == Seq::<(u128, Seq<u8>)>::empty(),
    {
        let r = Store { entries: Vec::new(), snapshot: None };
        proof {
            assert(r.entries_seq() =~= Seq::<(u128, Seq<u8>)>::empty());
        }
        r
    }

    /// Whether a transaction is currently open.
    pub fn in_transaction(&self) -> (r: bool)
        ensures
            r == self.in_tx(),
    {
        self.snapshot.is_some()
    }

    /// Number of stored records.
    pub fn entry_count(&self) -> (r: usize)
        ensures
            r == self.entries_seq().len(),
    {
        self.entries.len()
    }

    /// Whether the store holds no record at all.
    pub fn is_empty(&self) -> (r: bool)
        ensures
            r <==> self.entries_seq().len() == 0,
    {
        self.entries.len() == 0
    }

    /// The key of the record at an index.
    pub fn key_at(&self, i: usize) -> (r: u128)
        requires
            i < self.entries_seq().len(),
        ensures
            r == self.entries_seq()[i as int].0,
    {
        self.entries[i].0
    }

    /// The value of the record at an index.
    pub fn value_at(&self, i: usize) -> (r: &Vec<u8>)
        requires
            i < self.entries_seq().len(),
        ensures
            r@ == self.entries_seq()[i as int].1,
    {
        &self.entries[i].1
    }

    /// Writes a record: replaces the value under an existing key, otherwise
    /// inserts the pair at its ordered position.
    pub fn put(&mut self, key: u128, value: Vec<u8>) -> (r: Result<(), IpamError>)
        requires
            old(self).wf(),
        ensures
            r is Ok,
            final(self).wf(),
            final(self).entries_seq() == spec_put(old(self).entries_seq(), key, value@),
            final(self).in_tx() == old(self).in_tx(),
            old(self).in_tx() ==> final(self).tx_base() == old(self).tx_base(),
    {
        let ghost s = self.entries_seq();
        let mut pos: usize = 0;
        let n: usize = self.entries.len();
        while pos < n && self.entries[pos].0 < key
            invariant
                0 <= pos <= n,
                n == self.entries@.len(),
                s == self.entries_seq(),
                forall|j: int| 0 <= j < pos ==> s[j].0 < key,
            decreases n - pos,
        {
            pos = pos + 1;
        }
        proof {
            lemma_spec_put_at(s, key, value@, pos as int);
            lemma_spec_put_sorted(s, key, value@);
        }
        if pos < n && self.entries[pos].0 == key {
            self.entries.remove(pos);
            self.entries.insert(pos, (key, value));
            proof {
                assert(self.entries_seq() =~= s.take(pos as int) + seq![(key, value@)] + s.skip(
                    pos + 1,
                ));
            }
        } else {
            self.entries.insert(pos, (key, value));
            proof {
                assert(self.entries_seq() =~= s.take(pos as int) + seq![(key, value@)] + s.skip(
                    pos as int,
                ));
            }
        }
        Ok(())
    }

    /// Opens a transaction by snapshotting the entries.  A second `begin`
    /// inside an open transaction is rejected and changes nothing.
    pub fn begin_tx(&mut self) -> (r: Result<(), IpamError>)
        requires
            old(self).wf(),
        ensures
            final(self).wf(),
            final(self).entries_seq() == old(self).entries_seq(),
            old(self).in_tx() ==> r == Err::<(), IpamError>(IpamError::TransactionStateError)
                && *final(self) == *old(self),
            !old(self).in_tx() ==> r == Ok::<(), IpamError>(()) && final(self).in_tx()
                && final(self).tx_base() == old(self).entries_seq(),
    {
        if self.snapshot.is_some() {
            return Err(IpamError::TransactionStateError);
        }
        let snap = clone_entries(&self.entries);
        self.snapshot = Some(snap);
        proof {
            assert(self.tx_base() =~= self.entries_seq());
        }
        Ok(())
    }

    /// Closes the open transaction, keeping every change made inside it.
    /// Without an open transaction it fails and changes nothing.
    pub fn commit_tx(&mut self) -> (r: Result<(), IpamError>)
        requires
            old(self).wf(),
        ensures
            final(self).wf(),
            final(self).entries_seq() == old(self).entries_seq(),
            !final(self).in_tx(),
            old(self).in_tx() ==> r == Ok::<(), IpamError>(()),
            !old(self).in_tx() ==> r == Err::<(), IpamError>(IpamError::TransactionStateError)
                && *final(self) == *old(self),
    {
        if self.snapshot.is_some() {
            self.snapshot = None;
            Ok(())
        } else {
            Err(IpamError::TransactionStateError)
        }
    }

    /// Reverts every change made since the transaction began and closes it.
    /// Without an open transaction it fails and changes nothing.
    pub fn roll_back_tx(&mut self) -> (r: Result<(), IpamError>)
        requires
            old(self).wf(),
        ensures
            final(self).wf(),
            !final(self).in_tx(),
            old(self).in_tx() ==> r == Ok::<(), IpamError>(())
                && final(self).entries_seq() == old(self).tx_base(),
            !old(self).in_tx() ==> r == Err::<(), IpamError>(IpamError::TransactionStateError)
                && *final(self) == *old(self),
    {
        let snap = self.snapshot.take();
        match snap {
            Some(entries) => {
                self.entries = entries;
                Ok(())
            },
            None => Err(IpamError::TransactionStateError),
        }
    }
}

/// A byte-for-byte copy of a byte vector.
fn clone_bytes(v: &Vec<u8>) -> (r: Vec<u8>)
    ensures
        r@ == v@,
{
    let mut r: Vec<u8> = Vec::new();
    let mut i: usize = 0;
    while i < v.len()
        invariant
            i <= v@.len(),
            r@ == v@.take(i as int),
        decreases v@.len() - i,
    {
        r.push(v[i]);
        proof {
            assert(r@ =~= v@.take(i + 1 as int));
        }
        i = i + 1;
    }
    proof {
        assert(v@.take(v@.len() as int) =~= v@);
    }
    r
}

/// An entry-for-entry copy of a key/value list.
fn clone_entries(v: &Vec<(u128, Vec<u8>)>) -> (r: Vec<(u128, Vec<u8>)>)
    ensures
        entries_view(r@) == entries_view(v@),
{
    let mut r: Vec<(u128, Vec<u8>)> = Vec::new();
    proof {
        assert(entries_view(r@) =~~= entries_view(v@).take(0));
    }
    let mut i: usize = 0;
    while i < v.len()
        invariant
            i <= v@.len(),
            entries_view(r@) == entries_view(v@).take(i as int),
        decreases v@.len() - i,
    {
        let key: u128 = v[i].0;
        let value: Vec<u8> = clone_bytes(&v[i].1);
        let ghost pre = r@;
        let ghost valv = value@;
        r.push((key, value));
        proof {
            let rv = entries_view(r@);
            let tv = entries_view(v@).take(i as int + 1);
            assert(valv == v@[i as int].1@);
            assert(rv.len() == r@.len());
            assert(r@.len() == pre.len() + 1);
            assert(entries_view(pre).len() == i as int);
            assert(tv.len() == i as int + 1);
            assert(rv.len() == tv.len());
            assert forall|j: int| 0 <= j < rv.len() implies rv[j] == tv[j] by {
                if j < i {
                    assert(r@[j] == pre[j]);
                    assert(entries_view(pre)[j] == entries_view(v@).take(i as int)[j]);
                } else {
                    assert(r@[j].0 == key && r@[j].1@ == valv);
                    assert(tv[j] == (v@[j].0, v@[j].1@));
                }
            }
            assert(rv =~= tv);
        }
        i = i + 1;
    }
    proof {
        assert(entries_view(v@).take(v@.len() as int) =~~= entries_view(v@));
    }
    r
}

} // verus!
