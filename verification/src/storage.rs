//! The storage contract and its in-memory implementation.
//!
//! A store is a two-level mapping: table name to table, table to a map
//! from key to value. Its mathematical model is
//! `Map<Seq<char>, Map<Seq<char>, ValueV>>`. Tables are created lazily by
//! the writing operations; a read on a missing table behaves as a read on
//! an empty table.

use crate::error::KvError;
use crate::pb::pairs_view;
use crate::pb::Kvpair;
use crate::pb::KvpairV;
use crate::pb::Value;
use crate::pb::ValueV;
use vstd::prelude::*;

verus! {

/// The mathematical model of a store.
pub type StoreV = Map<Seq<char>, Map<Seq<char>, ValueV>>;

/// The table named `t`, an empty map when the store has no such table.
pub open spec fn st_table(s: StoreV, t: Seq<char>) -> Map<Seq<char>, ValueV> {
    if s.contains_key(t) {
        s[t]
    } else {
        Map::empty()
    }
}

/// What a read of `k` in table `t` yields.
pub open spec fn st_get(s: StoreV, t: Seq<char>, k: Seq<char>) -> Option<ValueV> {
    if st_table(s, t).contains_key(k) {
        Some(st_table(s, t)[k])
    } else {
        None
    }
}

/// The store after `k` in table `t` is set to `v`; the table is created
/// if it was absent.
pub open spec fn st_set(s: StoreV, t: Seq<char>, k: Seq<char>, v: ValueV) -> StoreV {
    s.insert(t, st_table(s, t).insert(k, v))
}

/// The store after `k` is removed from table `t`; the table is created
/// if it was absent.
pub open spec fn st_del(s: StoreV, t: Seq<char>, k: Seq<char>) -> StoreV {
    s.insert(t, st_table(s, t).remove(k))
}

/// The view of an optional value.
pub open spec fn opt_view(v: Option<Value>) -> Option<ValueV> {
    match v {
        Some(x) => Some(x@),
        None => None,
    }
}

/// The narrow failure modes a storage backend may report: a value that
/// would not coerce, or a backend fault. Anything else a backend could
/// raise is outside the storage contract.
pub open spec fn backend_error(e: KvError) -> bool {
    e matches KvError::ConvertError(_, _) || e matches KvError::StorageError(_, _, _, _)
}

/// `ps` lists exactly the entries of `m`, each key once, in some order.
pub open spec fn pairs_enumerate(ps: Seq<KvpairV>, m: Map<Seq<char>, ValueV>) -> bool {
    &&& forall|i: int|
        #![auto]
        0 <= i < ps.len() ==> m.contains_key(ps[i].key) && m[ps[i].key] == ps[i].value
    &&& forall|k: Seq<char>|
        #![auto]
        m.contains_key(k) ==> exists|i: int| 0 <= i < ps.len() && ps[i].key == k
    &&& forall|i: int, j: int| #![auto] 0 <= i < j < ps.len() ==> ps[i].key != ps[j].key
}

/// The contract of a storage engine.
///
/// The `Result` shape is kept for the sake of backends that can fail; on
/// an `Err` the store is unchanged. Every operation that touches a
/// missing table behaves as if the table existed and were empty.
pub trait Storage: Sized {
    /// The mathematical content of the store.
    spec fn store_view(&self) -> StoreV;

    /// The implementation's internal well-formedness.
    spec fn inv(&self) -> bool;

    /// Whether this engine is free of backend failures. Where it holds,
    /// every operation is owed an `Ok`; the in-memory store claims it.
    spec fn infallible() -> bool;

    /// Reads `key` of `table`.
    fn get(&self, table: &str, key: &str) -> (r: Result<Option<Value>, KvError>)
        requires
            self.inv(),
        ensures
            r matches Ok(v) ==> opt_view(v) == st_get(self.store_view(), table@, key@),
            r matches Err(e) ==> backend_error(e),
            Self::infallible() ==> r is Ok,
    ;

    /// Sets `key` of `table` to `value` and yields the prior value.
    fn set(&mut self, table: &str, key: String, value: Value) -> (r: Result<
        Option<Value>,
        KvError,
    >)
        requires
            old(self).inv(),
        ensures
            final(self).inv(),
            r matches Ok(prior) ==> final(self).store_view() == st_set(
                old(self).store_view(),
                table@,
                key@,
                value@,
            ) && opt_view(prior) == st_get(old(self).store_view(), table@, key@),
            r is Err ==> final(self).store_view() == old(self).store_view(),
            r matches Err(e) ==> backend_error(e),
            Self::infallible() ==> r is Ok,
    ;

    /// Tells whether `table` holds `key`.
    fn contains(&self, table: &str, key: &str) -> (r: Result<bool, KvError>)
        requires
            self.inv(),
        ensures
            r matches Ok(b) ==> b == st_get(self.store_view(), table@, key@) is Some,
            r matches Err(e) ==> backend_error(e),
            Self::infallible() ==> r is Ok,
    ;

    /// Removes `key` of `table` and yields the removed value.
    fn del(&mut self, table: &str, key: &str) -> (r: Result<Option<Value>, KvError>)
        requires
            old(self).inv(),
        ensures
            final(self).inv(),
            r matches Ok(prior) ==> final(self).store_view() == st_del(
                old(self).store_view(),
                table@,
                key@,
            ) && opt_view(prior) == st_get(old(self).store_view(), table@, key@),
            r is Err ==> final(self).store_view() == old(self).store_view(),
            r matches Err(e) ==> backend_error(e),
            Self::infallible() ==> r is Ok,
    ;

    /// A snapshot of all pairs of `table`, in an unspecified order.
    fn get_all(&self, table: &str) -> (r: Result<Vec<Kvpair>, KvError>)
        requires
            self.inv(),
        ensures
            r matches Ok(v) ==> pairs_enumerate(
                pairs_view(v@),
                st_table(self.store_view(), table@),
            ),
            r matches Err(e) ==> backend_error(e),
            Self::infallible() ==> r is Ok,
    ;

    /// An iterator over a snapshot of `table`, taken at the call.
    fn get_iter(&self, table: &str) -> (r: Result<MemStoreIter, KvError>)
        requires
            self.inv(),
        ensures
            r matches Ok(it) ==> pairs_enumerate(
                it.remaining(),
                st_table(self.store_view(), table@),
            ),
            r matches Err(e) ==> backend_error(e),
            Self::infallible() ==> r is Ok,
    ;
}

/// An owned snapshot of one table, handed out pair by pair.
pub struct MemStoreIter {
    pairs: Vec<Kvpair>,
    pos: usize,
}

impl MemStoreIter {
    /// The pairs not yet handed out.
    pub closed spec fn remaining(&self) -> Seq<KvpairV> {
        if self.pos <= self.pairs@.len() {
            pairs_view(self.pairs@).skip(self.pos as int)
        } else {
            Seq::empty()
        }
    }

    /// Wraps a snapshot.
    pub fn new(pairs: Vec<Kvpair>) -> (r: MemStoreIter)
        ensures
            r.remaining() == pairs_view(pairs@),
    {
        let r = MemStoreIter { pairs, pos: 0 };
        proof {
            assert(r.remaining() =~= pairs_view(r.pairs@));
        }
        r
    }

    /// Hands out the next pair of the snapshot, front first.
    pub fn next(&mut self) -> (r: Option<Kvpair>)
        ensures
            old(self).remaining().len() == 0 ==> r is None && final(self).remaining()
                == old(self).remaining(),
            old(self).remaining().len() > 0 ==> (r matches Some(p) && p@ == old(
                self,
            ).remaining()[0] && final(self).remaining() == old(self).remaining().drop_first()),
    {
        if self.pos < self.pairs.len() {
            let p = self.pairs[self.pos].dup();
            self.pos = self.pos + 1;
            proof {
                assert(final(self).remaining() =~= old(self).remaining().drop_first());
            }
            Some(p)
        } else {
            None
        }
    }
}

/// One key/value entry of a table.
struct Entry {
    key: String,
    val: Value,
}

/// One named table.
struct TableEntry {
    name: String,
    entries: Vec<Entry>,
}

/// The map a list of entries stands for; a later entry with the same key
/// would win, but the store keeps keys distinct.
spec fn entries_map(es: Seq<Entry>) -> Map<Seq<char>, ValueV>
    decreases es.len(),
{
    if es.len() == 0 {
        Map::empty()
    } else {
        entries_map(es.drop_last()).insert(es.last().key@, es.last().val@)
    }
}

/// The store a list of tables stands for.
spec fn tables_map(ts: Seq<TableEntry>) -> StoreV
    decreases ts.len(),
{
    if ts.len() == 0 {
        Map::empty()
    } else {
        tables_map(ts.drop_last()).insert(ts.last().name@, entries_map(ts.last().entries@))
    }
}

spec fn entry_keys_distinct(es: Seq<Entry>) -> bool {
    forall|i: int, j: int| #![auto] 0 <= i < j < es.len() ==> es[i].key@ != es[j].key@
}

spec fn table_names_distinct(ts: Seq<TableEntry>) -> bool {
    forall|i: int, j: int| #![auto] 0 <= i < j < ts.len() ==> ts[i].name@ != ts[j].name@
}

proof fn lemma_entries_map_contains(es: Seq<Entry>, k: Seq<char>)
    ensures
        entries_map(es).contains_key(k) <==> exists|i: int|
            0 <= i < es.len() && #[trigger] es[i].key@ == k,
    decreases es.len(),
{
    if es.len() > 0 {
        lemma_entries_map_contains(es.drop_last(), k);
        if es.last().key@ == k {
            assert(es[es.len() - 1].key@ == k);
        } else {
            if entries_map(es).contains_key(k) {
                let i = choose|i: int| 0 <= i < es.drop_last().len() && #[trigger] es.drop_last()[i].key@ == k;
                assert(es[i].key@ == k);
            }
            if exists|i: int| 0 <= i < es.len() && #[trigger] es[i].key@ == k {
                let i = choose|i: int| 0 <= i < es.len() && #[trigger] es[i].key@ == k;
                assert(es.drop_last()[i].key@ == k);
            }
        }
    }
}

proof fn lemma_entries_map_index(es: Seq<Entry>, i: int)
    requires
        entry_keys_distinct(es),
        0 <= i < es.len(),
    ensures
        entries_map(es).contains_key(es[i].key@),
        entries_map(es)[es[i].key@] == es[i].val@,
    decreases es.len(),
{
    lemma_entries_map_contains(es, es[i].key@);
    if i < es.len() - 1 {
        assert(es.drop_last()[i] == es[i]);
        lemma_entries_map_index(es.drop_last(), i);
        assert(es.last().key@ != es[i].key@);
    }
}

proof fn lemma_entries_map_push(es: Seq<Entry>, e: Entry)
    ensures
        entries_map(es.push(e)) == entries_map(es).insert(e.key@, e.val@),
{
    assert(es.push(e).drop_last() =~= es);
}

proof fn lemma_entries_map_update(es: Seq<Entry>, i: int, e: Entry)
    requires
        entry_keys_distinct(es),
        0 <= i < es.len(),
        e.key@ == es[i].key@,
    ensures
        entries_map(es.update(i, e)) == entries_map(es).insert(e.key@, e.val@),
    decreases es.len(),
{
    let k = e.key@;
    if i == es.len() - 1 {
        assert(es.update(i, e).drop_last() =~= es.drop_last());
        assert(es.update(i, e).last() == e);
        assert(entries_map(es.drop_last()).insert(k, e.val@) =~= entries_map(
            es.drop_last(),
        ).insert(es.last().key@, es.last().val@).insert(k, e.val@));
    } else {
        assert(es.update(i, e).drop_last() =~= es.drop_last().update(i, e));
        assert(es.drop_last()[i] == es[i]);
        lemma_entries_map_update(es.drop_last(), i, e);
        assert(es.update(i, e).last() == es.last());
        assert(es.last().key@ != k);
        assert(entries_map(es.drop_last()).insert(k, e.val@).insert(
            es.last().key@,
            es.last().val@,
        ) =~= entries_map(es.drop_last()).insert(es.last().key@, es.last().val@).insert(
            k,
            e.val@,
        ));
    }
}

proof fn lemma_entries_map_remove(es: Seq<Entry>, i: int)
    requires
        entry_keys_distinct(es),
        0 <= i < es.len(),
    ensures
        entries_map(es.remove(i)) == entries_map(es).remove(es[i].key@),
    decreases es.len(),
{
    let k = es[i].key@;
    if i == es.len() - 1 {
        assert(es.remove(i) =~= es.drop_last());
        lemma_entries_map_contains(es.drop_last(), k);
        assert(forall|j: int|
            0 <= j < es.drop_last().len() ==> #[trigger] es.drop_last()[j].key@ != k);
        assert(entries_map(es.drop_last()) =~= entries_map(es.drop_last()).insert(
            k,
            es.last().val@,
        ).remove(k));
    } else {
        assert(es.remove(i).drop_last() =~= es.drop_last().remove(i));
        assert(es.drop_last()[i] == es[i]);
        lemma_entries_map_remove(es.drop_last(), i);
        assert(es.remove(i).last() == es.last());
        assert(es.last().key@ != k);
        assert(entries_map(es.drop_last()).remove(k).insert(es.last().key@, es.last().val@)
            =~= entries_map(es.drop_last()).insert(es.last().key@, es.last().val@).remove(k));
    }
}

proof fn lemma_tables_map_contains(ts: Seq<TableEntry>, n: Seq<char>)
    ensures
        tables_map(ts).contains_key(n) <==> exists|i: int|
            0 <= i < ts.len() && #[trigger] ts[i].name@ == n,
    decreases ts.len(),
{
    if ts.len() > 0 {
        lemma_tables_map_contains(ts.drop_last(), n);
        if ts.last().name@ == n {
            assert(ts[ts.len() - 1].name@ == n);
        } else {
            if tables_map(ts).contains_key(n) {
                let i = choose|i: int|
                    0 <= i < ts.drop_last().len() && #[trigger] ts.drop_last()[i].name@ == n;
                assert(ts[i].name@ == n);
            }
            if exists|i: int| 0 <= i < ts.len() && #[trigger] ts[i].name@ == n {
                let i = choose|i: int| 0 <= i < ts.len() && #[trigger] ts[i].name@ == n;
                assert(ts.drop_last()[i].name@ == n);
            }
        }
    }
}

proof fn lemma_tables_map_index(ts: Seq<TableEntry>, i: int)
    requires
        table_names_distinct(ts),
        0 <= i < ts.len(),
    ensures
        tables_map(ts).contains_key(ts[i].name@),
        tables_map(ts)[ts[i].name@] == entries_map(ts[i].entries@),
    decreases ts.len(),
{
    lemma_tables_map_contains(ts, ts[i].name@);
    if i < ts.len() - 1 {
        assert(ts.drop_last()[i] == ts[i]);
        lemma_tables_map_index(ts.drop_last(), i);
        assert(ts.last().name@ != ts[i].name@);
    }
}

proof fn lemma_tables_map_push(ts: Seq<TableEntry>, t: TableEntry)
    ensures
        tables_map(ts.push(t)) == tables_map(ts).insert(t.name@, entries_map(t.entries@)),
{
    assert(ts.push(t).drop_last() =~= ts);
}

proof fn lemma_tables_map_update(ts: Seq<TableEntry>, i: int, t: TableEntry)
    requires
        table_names_distinct(ts),
        0 <= i < ts.len(),
        t.name@ == ts[i].name@,
    ensures
        tables_map(ts.update(i, t)) == tables_map(ts).insert(t.name@, entries_map(t.entries@)),
    decreases ts.len(),
{
    let n = t.name@;
    if i == ts.len() - 1 {
        assert(ts.update(i, t).drop_last() =~= ts.drop_last());
        assert(ts.update(i, t).last() == t);
        assert(tables_map(ts.drop_last()).insert(n, entries_map(t.entries@)) =~~= tables_map(
            ts.drop_last(),
        ).insert(ts.last().name@, entries_map(ts.last().entries@)).insert(
            n,
            entries_map(t.entries@),
        ));
    } else {
        assert(ts.update(i, t).drop_last() =~= ts.drop_last().update(i, t));
        assert(ts.drop_last()[i] == ts[i]);
        lemma_tables_map_update(ts.drop_last(), i, t);
        assert(ts.update(i, t).last() == ts.last());
        assert(ts.last().name@ != n);
        assert(tables_map(ts.drop_last()).insert(n, entries_map(t.entries@)).insert(
            ts.last().name@,
            entries_map(ts.last().entries@),
        ) =~~= tables_map(ts.drop_last()).insert(
            ts.last().name@,
            entries_map(ts.last().entries@),
        ).insert(n, entries_map(t.entries@)));
    }
}

/// The in-memory store: an owned structure whose writers take
/// `&mut self`. Sharing it across connections is the caller's concern;
/// the transport layer holds it behind a lock.
pub struct MemTable {
    tables: Vec<TableEntry>,
}

impl Default for MemTable {
    /// A fresh, empty store.
    fn default() -> (r: MemTable)
        ensures
            r.inv(),
            r.store_view() == Map::<Seq<char>, Map<Seq<char>, ValueV>>::empty(),
    {
        MemTable { tables: Vec::new() }
    }
}

impl MemTable {
    /// A fresh, empty store.
    pub fn new() -> (r: MemTable)
        ensures
            r.inv(),
            r.store_view() == Map::<Seq<char>, Map<Seq<char>, ValueV>>::empty(),
    {
        MemTable::default()
    }

    /// The position of table `name`, if the store holds it.
    fn find_table(&self, name: &str) -> (r: Option<usize>)
        ensures
            r matches Some(i) ==> i < self.tables@.len() && self.tables@[i as int].name@ == name@,
            r is None ==> forall|j: int|
                0 <= j < self.tables@.len() ==> #[trigger] self.tables@[j].name@ != name@,
    {
        let wanted: String = name.to_owned();
        let mut j: usize = 0;
        while j < self.tables.len()
            invariant
                j <= self.tables@.len(),
                wanted@ == name@,
                forall|i: int| 0 <= i < j ==> #[trigger] self.tables@[i].name@ != name@,
            decreases self.tables@.len() - j,
        {
            if self.tables[j].name == wanted {
                return Some(j);
            }
            j = j + 1;
        }
        None
    }
}

/// The position of key `k`, if the list holds it.
fn find_entry(es: &Vec<Entry>, k: &str) -> (r: Option<usize>)
    ensures
        r matches Some(i) ==> i < es@.len() && es@[i as int].key@ == k@,
        r is None ==> forall|j: int| 0 <= j < es@.len() ==> #[trigger] es@[j].key@ != k@,
{
    let wanted: String = k.to_owned();
    let mut j: usize = 0;
    while j < es.len()
        invariant
            j <= es@.len(),
            wanted@ == k@,
            forall|i: int| 0 <= i < j ==> #[trigger] es@[i].key@ != k@,
        decreases es@.len() - j,
    {
        if es[j].key == wanted {
            return Some(j);
        }
        j = j + 1;
    }
    None
}

/// A snapshot of a list of entries as pairs, in list order.
fn snapshot_entries(es: &Vec<Entry>) -> (r: Vec<Kvpair>)
    ensures
        r@.len() == es@.len(),
        forall|i: int|
            #![auto]
            0 <= i < r@.len() ==> r@[i]@ == (KvpairV { key: es@[i].key@, value: es@[i].val@ }),
{
    let mut out: Vec<Kvpair> = Vec::new();
    let mut j: usize = 0;
    while j < es.len()
        invariant
            j <= es@.len(),
            out@.len() == j,
            forall|i: int|
                #![auto]
                0 <= i < j ==> out@[i]@ == (KvpairV { key: es@[i].key@, value: es@[i].val@ }),
        decreases es@.len() - j,
    {
        out.push(Kvpair::new(es[j].key.as_str(), es[j].val.dup()));
        j = j + 1;
    }
    out
}

impl Storage for MemTable {
    closed spec fn store_view(&self) -> StoreV {
        tables_map(self.tables@)
    }

    open spec fn infallible() -> bool {
        true
    }

    closed spec fn inv(&self) -> bool {
        &&& table_names_distinct(self.tables@)
        &&& forall|i: int|
            0 <= i < self.tables@.len() ==> entry_keys_distinct(
                #[trigger] self.tables@[i].entries@,
            )
    }

    fn get(&self, table: &str, key: &str) -> (r: Result<Option<Value>, KvError>) {
        match self.find_table(table) {
            None => {
                proof {
                    lemma_tables_map_contains(self.tables@, table@);
                }
                Ok(None)
            },
            Some(ti) => {
                proof {
                    lemma_tables_map_index(self.tables@, ti as int);
                }
                let es = &self.tables[ti].entries;
                match find_entry(es, key) {
                    None => {
                        proof {
                            lemma_entries_map_contains(es@, key@);
                        }
                        Ok(None)
                    },
                    Some(ei) => {
                        proof {
                            lemma_entries_map_index(es@, ei as int);
                        }
                        Ok(Some(es[ei].val.dup()))
                    },
                }
            },
        }
    }

    fn set(&mut self, table: &str, key: String, value: Value) -> (r: Result<
        Option<Value>,
        KvError,
    >) {
        let ghost s0 = self.store_view();
        match self.find_table(table) {
            None => {
                proof {
                    lemma_tables_map_contains(self.tables@, table@);
                }
                let ghost k = key@;
                let mut entries: Vec<Entry> = Vec::new();
                entries.push(Entry { key, val: value });
                let tab = TableEntry { name: table.to_owned(), entries };
                proof {
                    lemma_tables_map_push(self.tables@, tab);
                    assert(tab.entries@.len() == 1);
                    assert(tab.entries@.last().key@ == k);
                    assert(tab.entries@.drop_last() =~= Seq::<Entry>::empty());
                    assert(entries_map(Seq::<Entry>::empty()) == Map::<Seq<char>, ValueV>::empty());
                    assert(entries_map(tab.entries@) =~= Map::<Seq<char>, ValueV>::empty().insert(
                        k,
                        value@,
                    ));
                }
                self.tables.push(tab);
                proof {
                    assert(self.store_view() =~~= st_set(s0, table@, k, value@));
                }
                Ok(None)
            },
            Some(ti) => {
                proof {
                    lemma_tables_map_index(self.tables@, ti as int);
                }
                let ghost es0 = self.tables@[ti as int].entries@;
                match find_entry(&self.tables[ti].entries, &key.as_str()) {
                    None => {
                        proof {
                            lemma_entries_map_contains(es0, key@);
                            lemma_entries_map_push(es0, Entry { key, val: value });
                        }
                        let tab = &mut self.tables[ti];
                        tab.entries.push(Entry { key, val: value });
                        proof {
                            lemma_tables_map_update(
                                old(self).tables@,
                                ti as int,
                                self.tables@[ti as int],
                            );
                            assert(self.store_view() =~~= st_set(s0, table@, key@, value@));
                        }
                        Ok(None)
                    },
                    Some(ei) => {
                        proof {
                            lemma_entries_map_index(es0, ei as int);
                        }
                        let tab = &mut self.tables[ti];
                        let prior = tab.entries[ei].val.dup();
                        let e = &mut tab.entries[ei];
                        e.val = value;
                        proof {
                            lemma_entries_map_update(es0, ei as int, self.tables@[ti as int].entries@[ei as int]);
                            lemma_tables_map_update(
                                old(self).tables@,
                                ti as int,
                                self.tables@[ti as int],
                            );
                            assert(self.store_view() =~~= st_set(s0, table@, key@, value@));
                        }
                        Ok(Some(prior))
                    },
                }
            },
        }
    }

    fn contains(&self, table: &str, key: &str) -> (r: Result<bool, KvError>) {
        match self.get(table, key) {
            Ok(v) => Ok(v.is_some()),
            Err(e) => Err(e),
        }
    }

    fn del(&mut self, table: &str, key: &str) -> (r: Result<Option<Value>, KvError>) {
        let ghost s0 = self.store_view();
        match self.find_table(table) {
            None => {
                proof {
                    lemma_tables_map_contains(self.tables@, table@);
                }
                let tab = TableEntry { name: table.to_owned(), entries: Vec::new() };
                proof {
                    lemma_tables_map_push(self.tables@, tab);
                    assert(entries_map(tab.entries@) =~= Map::<Seq<char>, ValueV>::empty().remove(
                        key@,
                    ));
                }
                self.tables.push(tab);
                proof {
                    assert(self.store_view() =~~= st_del(s0, table@, key@));
                }
                Ok(None)
            },
            Some(ti) => {
                proof {
                    lemma_tables_map_index(self.tables@, ti as int);
                }
                let ghost es0 = self.tables@[ti as int].entries@;
                match find_entry(&self.tables[ti].entries, key) {
                    None => {
                        proof {
                            lemma_entries_map_contains(es0, key@);
                            lemma_tables_map_update(
                                self.tables@,
                                ti as int,
                                self.tables@[ti as int],
                            );
                            assert(self.tables@.update(ti as int, self.tables@[ti as int])
                                =~= self.tables@);
                            assert(entries_map(es0).remove(key@) =~= entries_map(es0));
                            assert(self.store_view() =~~= st_del(s0, table@, key@));
                        }
                        Ok(None)
                    },
                    Some(ei) => {
                        proof {
                            lemma_entries_map_index(es0, ei as int);
                            lemma_entries_map_remove(es0, ei as int);
                        }
                        let tab = &mut self.tables[ti];
                        let prior = tab.entries[ei].val.dup();
                        tab.entries.remove(ei);
                        proof {
                            lemma_tables_map_update(
                                old(self).tables@,
                                ti as int,
                                self.tables@[ti as int],
                            );
                            assert(self.store_view() =~~= st_del(s0, table@, key@));
                        }
                        Ok(Some(prior))
                    },
                }
            },
        }
    }

    fn get_all(&self, table: &str) -> (r: Result<Vec<Kvpair>, KvError>) {
        match self.find_table(table) {
            None => {
                proof {
                    lemma_tables_map_contains(self.tables@, table@);
                }
                Ok(Vec::new())
            },
            Some(ti) => {
                proof {
                    lemma_tables_map_index(self.tables@, ti as int);
                }
                let es = &self.tables[ti].entries;
                let out = snapshot_entries(es);
                proof {
                    let ps = pairs_view(out@);
                    let m = st_table(self.store_view(), table@);
                    assert forall|i: int| 0 <= i < ps.len() implies m.contains_key(
                        #[trigger] ps[i].key,
                    ) && m[ps[i].key] == ps[i].value by {
                        lemma_entries_map_index(es@, i);
                    }
                    assert forall|k: Seq<char>| #[trigger]
                        m.contains_key(k) implies exists|i: int|
                        0 <= i < ps.len() && ps[i].key == k by {
                        lemma_entries_map_contains(es@, k);
                        let i = choose|i: int| 0 <= i < es@.len() && #[trigger] es@[i].key@ == k;
                        assert(ps[i].key == k);
                    }
                }
                Ok(out)
            },
        }
    }

    fn get_iter(&self, table: &str) -> (r: Result<MemStoreIter, KvError>) {
        match self.get_all(table) {
            Ok(pairs) => Ok(MemStoreIter::new(pairs)),
            Err(e) => Err(e),
        }
    }
}

} // verus!
