//! A table engine that keeps every table in memory.
use vstd::prelude::*;
use vstd::slice::slice_to_vec;
use vstd::utf8::*;

use crate::database::key_value::{
    entries_view, in_range, is_listing, key_in_range, lemma_full_range, TupleOfByte, OrderedTable,
};
use crate::utility::bytes::{
    compare_bytes, lemma_lex_irreflexive, lemma_lex_transitive, lex_lt,
    ByteOrder,
};
use crate::config::Config;
use crate::database::engine::DBEngine;
use crate::utility::error::Result;

verus! {

/// A table held in memory as its entries in ascending key order.
pub struct MemTable {
    entries: Vec<TupleOfByte>,
    map: Ghost<Map<Seq<u8>, Seq<u8>>>,
    name: Ghost<Seq<char>>,
    store: Ghost<Option<Config>>,
}

impl MemTable {
    #[verifier::type_invariant]
    spec fn well_formed(self) -> bool {
        is_listing(self.map@, Seq::empty(), Seq::empty(), entries_view(self.entries@))
    }

    /// The name that the table was opened under.
    pub closed spec fn name(&self) -> Seq<char> {
        self.name@
    }

    /// The configuration of the engine that opened the table, if an engine
    /// opened it.
    pub closed spec fn store(&self) -> Option<Config> {
        self.store@
    }

    /// An empty table.
    pub fn new() -> (r: Self)
        ensures
            r.contents() == Map::<Seq<u8>, Seq<u8>>::empty(),
    {
        MemTable {
            entries: Vec::new(),
            map: Ghost(Map::empty()),
            name: Ghost(Seq::empty()),
            store: Ghost(None),
        }
    }

    /// Where `key` is, or where it would go.
    fn locate(&self, key: &[u8]) -> (r: (bool, usize))
        ensures
            r.1 <= self.entries@.len(),
            forall|i: int| 0 <= i < r.1 ==> lex_lt(#[trigger] self.entries@[i].0@, key@),
            r.0 ==> r.1 < self.entries@.len() && self.entries@[r.1 as int].0@ == key@,
            !r.0 ==> forall|i: int|
                r.1 <= i < self.entries@.len() ==> lex_lt(key@, #[trigger] self.entries@[i].0@),
    {
        proof {
            use_type_invariant(self);
        }
        let ghost ev = entries_view(self.entries@);
        let mut i: usize = 0;
        while i < self.entries.len()
            invariant
                i <= self.entries@.len(),
                ev == entries_view(self.entries@),
                is_listing(self.map@, Seq::empty(), Seq::empty(), ev),
                forall|j: int| 0 <= j < i ==> lex_lt(#[trigger] self.entries@[j].0@, key@),
            decreases self.entries.len() - i,
        {
            match compare_bytes(self.entries[i].0.as_slice(), key) {
                ByteOrder::Less => {},
                ByteOrder::Equal => {
                    return (true, i);
                },
                ByteOrder::Greater => {
                    proof {
                        assert forall|j: int| i <= j < self.entries@.len() implies lex_lt(
                            key@,
                            #[trigger] self.entries@[j].0@,
                        ) by {
                            if j > i {
                                assert(ev[i as int].0 == self.entries@[i as int].0@);
                                assert(ev[j].0 == self.entries@[j].0@);
                                assert(lex_lt(ev[i as int].0, ev[j].0));
                                lemma_lex_transitive(key@, ev[i as int].0, ev[j].0);
                            }
                        }
                    }
                    return (false, i);
                },
            }
            i = i + 1;
        }
        (false, i)
    }
}

/// An engine whose tables live in memory and start out empty.
pub struct MemEngine {
    config: Ghost<Config>,
}

impl DBEngine for MemEngine {
    type Tree = MemTable;

    closed spec fn tree_name(t: &MemTable) -> Seq<char> {
        t.name()
    }

    closed spec fn config(&self) -> Config {
        self.config@
    }

    closed spec fn tree_config(t: &MemTable) -> Option<Config> {
        t.store()
    }

    /// Opening never fails: there is nothing to open.
    fn open(config: &Config) -> (r: Result<Self>)
        ensures
            r is Ok,
    {
        Ok(MemEngine { config: Ghost(*config) })
    }

    /// Every table opens empty, and never fails.
    fn open_tree(&mut self, name: &str) -> (r: Result<MemTable>)
        ensures
            r matches Ok(t) && t.contents() == Map::<Seq<u8>, Seq<u8>>::empty(),
    {
        Ok(
            MemTable {
                entries: Vec::new(),
                map: Ghost(Map::empty()),
                name: Ghost(name@),
                store: Ghost(Some(self.config@)),
            },
        )
    }

    /// Nothing is held back, so flushing succeeds.
    fn flush(&mut self) -> (r: Result<()>)
        ensures
            r is Ok,
    {
        Ok(())
    }
}

impl OrderedTable for MemTable {
    closed spec fn contents(&self) -> Map<Seq<u8>, Seq<u8>> {
        self.map@
    }

    open spec fn infallible(&self) -> bool {
        true
    }

    fn get(&self, key: &[u8]) -> (r: Result<Option<Vec<u8>>>) {
        proof {
            use_type_invariant(self);
        }
        let ghost ev = entries_view(self.entries@);
        let (found, pos) = self.locate(key);
        if found {
            proof {
                assert(ev[pos as int].0 == key@);
            }
            Ok(Some(slice_to_vec(self.entries[pos].1.as_slice())))
        } else {
            proof {
                if self.map@.contains_key(key@) {
                    lemma_full_range(key@);
                    let j = choose|j: int| 0 <= j < ev.len() && #[trigger] ev[j].0 == key@;
                    assert(ev[j].0 == self.entries@[j].0@);
                    if j < pos {
                        lemma_lex_irreflexive(key@);
                    } else {
                        lemma_lex_irreflexive(key@);
                    }
                }
            }
            Ok(None)
        }
    }

    fn insert(&mut self, key: &[u8], value: &[u8]) -> (r: Result<()>) {
        proof {
            use_type_invariant(&*self);
        }
        let (found, pos) = self.locate(key);
        let mut t = MemTable::new();
        std::mem::swap(&mut t, self);
        let MemTable { mut entries, map, name, store } = t;
        let ghost old_ev = entries_view(entries@);
        let ghost new_map = map@.insert(key@, value@);
        let item: TupleOfByte = (slice_to_vec(key), slice_to_vec(value));
        if found {
            entries.set(pos, item);
        } else {
            entries.insert(pos, item);
        }
        let ghost ev = entries_view(entries@);
        proof {
            if found {
                assert(ev =~= old_ev.update(pos as int, (key@, value@)));
                assert forall|i: int, j: int| 0 <= i < j < ev.len() implies lex_lt(
                    #[trigger] ev[i].0,
                    #[trigger] ev[j].0,
                ) by {
                    assert(old_ev[i].0 == ev[i].0 && old_ev[j].0 == ev[j].0);
                }
                assert forall|i: int| 0 <= i < ev.len() implies {
                    &&& new_map.contains_key(#[trigger] ev[i].0)
                    &&& new_map[ev[i].0] == ev[i].1
                    &&& in_range(ev[i].0, Seq::empty(), Seq::empty())
                } by {
                    lemma_full_range(ev[i].0);
                    if i != pos {
                        assert(old_ev[i] == ev[i]);
                        assert(lex_lt(old_ev[i].0, old_ev[pos as int].0) || lex_lt(
                            old_ev[pos as int].0,
                            old_ev[i].0,
                        ));
                        if ev[i].0 == key@ {
                            lemma_lex_irreflexive(key@);
                        }
                    }
                }
                assert forall|k: Seq<u8>|
                    new_map.contains_key(k) && in_range(k, Seq::empty(), Seq::empty()) implies exists|
                    i: int,
                | 0 <= i < ev.len() && #[trigger] ev[i].0 == k by {
                    if k == key@ {
                        assert(ev[pos as int].0 == k);
                    } else {
                        lemma_full_range(k);
                        let i = choose|i: int| 0 <= i < old_ev.len() && #[trigger] old_ev[i].0 == k;
                        assert(ev[i].0 == k);
                    }
                }
            } else {
                assert(ev =~= old_ev.insert(pos as int, (key@, value@)));
                assert forall|i: int, j: int| 0 <= i < j < ev.len() implies lex_lt(
                    #[trigger] ev[i].0,
                    #[trigger] ev[j].0,
                ) by {
                    if j < pos {
                        assert(old_ev[i] == ev[i] && old_ev[j] == ev[j]);
                    } else if j == pos {
                        assert(old_ev[i] == ev[i]);
                        assert(old_ev[i].0 == entries_view(old(self).entries@)[i].0);
                    } else if i == pos {
                        assert(old_ev[j - 1] == ev[j]);
                    } else if i < pos {
                        assert(old_ev[i] == ev[i] && old_ev[j - 1] == ev[j]);
                    } else {
                        assert(old_ev[i - 1] == ev[i] && old_ev[j - 1] == ev[j]);
                    }
                }
                assert forall|i: int| 0 <= i < ev.len() implies {
                    &&& new_map.contains_key(#[trigger] ev[i].0)
                    &&& new_map[ev[i].0] == ev[i].1
                    &&& in_range(ev[i].0, Seq::empty(), Seq::empty())
                } by {
                    lemma_full_range(ev[i].0);
                    if i < pos {
                        assert(old_ev[i] == ev[i]);
                        if ev[i].0 == key@ {
                            lemma_lex_irreflexive(key@);
                        }
                    } else if i > pos {
                        assert(old_ev[i - 1] == ev[i]);
                        if ev[i].0 == key@ {
                            lemma_lex_irreflexive(key@);
                        }
                    }
                }
                assert forall|k: Seq<u8>|
                    new_map.contains_key(k) && in_range(k, Seq::empty(), Seq::empty()) implies exists|
                    i: int,
                | 0 <= i < ev.len() && #[trigger] ev[i].0 == k by {
                    if k == key@ {
                        assert(ev[pos as int].0 == k);
                    } else {
                        lemma_full_range(k);
                        let i = choose|i: int| 0 <= i < old_ev.len() && #[trigger] old_ev[i].0 == k;
                        if i < pos {
                            assert(ev[i].0 == k);
                        } else {
                            assert(ev[i + 1].0 == k);
                        }
                    }
                }
            }
        }
        *self = MemTable { entries, map: Ghost(new_map), name, store };
        Ok(())
    }

    fn remove(&mut self, key: &[u8]) -> (r: Result<()>) {
        proof {
            use_type_invariant(&*self);
        }
        let (found, pos) = self.locate(key);
        if !found {
            proof {
                let ev = entries_view(self.entries@);
                if self.map@.contains_key(key@) {
                    lemma_full_range(key@);
                    let j = choose|j: int| 0 <= j < ev.len() && #[trigger] ev[j].0 == key@;
                    assert(ev[j].0 == self.entries@[j].0@);
                    lemma_lex_irreflexive(key@);
                }
                assert(self.map@.remove(key@) =~= self.map@);
            }
            return Ok(());
        }
        let mut t = MemTable::new();
        std::mem::swap(&mut t, self);
        let MemTable { mut entries, map, name, store } = t;
        let ghost old_ev = entries_view(entries@);
        let ghost new_map = map@.remove(key@);
        entries.remove(pos);
        let ghost ev = entries_view(entries@);
        proof {
            assert(ev =~= old_ev.remove(pos as int));
            assert forall|i: int, j: int| 0 <= i < j < ev.len() implies lex_lt(
                #[trigger] ev[i].0,
                #[trigger] ev[j].0,
            ) by {
                if j < pos {
                    assert(old_ev[i] == ev[i] && old_ev[j] == ev[j]);
                } else if i < pos {
                    assert(old_ev[i] == ev[i] && old_ev[j + 1] == ev[j]);
                } else {
                    assert(old_ev[i + 1] == ev[i] && old_ev[j + 1] == ev[j]);
                }
            }
            assert forall|i: int| 0 <= i < ev.len() implies {
                &&& new_map.contains_key(#[trigger] ev[i].0)
                &&& new_map[ev[i].0] == ev[i].1
                &&& in_range(ev[i].0, Seq::empty(), Seq::empty())
            } by {
                lemma_full_range(ev[i].0);
                if i < pos {
                    assert(old_ev[i] == ev[i]);
                    assert(lex_lt(old_ev[i].0, old_ev[pos as int].0));
                    if ev[i].0 == key@ {
                        lemma_lex_irreflexive(key@);
                    }
                } else {
                    assert(old_ev[i + 1] == ev[i]);
                    assert(lex_lt(old_ev[pos as int].0, old_ev[i + 1].0));
                    if ev[i].0 == key@ {
                        lemma_lex_irreflexive(key@);
                    }
                }
            }
            assert forall|k: Seq<u8>|
                new_map.contains_key(k) && in_range(k, Seq::empty(), Seq::empty()) implies exists|
                i: int,
            | 0 <= i < ev.len() && #[trigger] ev[i].0 == k by {
                let i = choose|i: int| 0 <= i < old_ev.len() && #[trigger] old_ev[i].0 == k;
                if i < pos {
                    assert(ev[i].0 == k);
                } else {
                    assert(i != pos);
                    assert(ev[i - 1].0 == k);
                }
            }
        }
        *self = MemTable { entries, map: Ghost(new_map), name, store };
        Ok(())
    }

    fn iter(&self) -> (r: Result<Vec<TupleOfByte>>) {
        Ok(self.all_entries())
    }

    fn iter_form(&self, key_prefix: &str, from: &[u8]) -> (r: Result<Vec<TupleOfByte>>) {
        Ok(self.entries_in_range(key_prefix, from))
    }
}

impl MemTable {
    /// All entries, in ascending key order.
    fn all_entries(&self) -> (r: Vec<TupleOfByte>)
        ensures
            is_listing(self.map@, Seq::empty(), Seq::empty(), entries_view(r@)),
    {
        proof {
            use_type_invariant(self);
        }
        let mut r: Vec<TupleOfByte> = Vec::new();
        let mut i: usize = 0;
        while i < self.entries.len()
            invariant
                i <= self.entries@.len(),
                entries_view(r@) =~= entries_view(self.entries@).take(i as int),
            decreases self.entries.len() - i,
        {
            let item: TupleOfByte = (
                slice_to_vec(self.entries[i].0.as_slice()),
                slice_to_vec(self.entries[i].1.as_slice()),
            );
            let ghost before = r@;
            r.push(item);
            proof {
                assert(r@ == before.push(item));
                assert(entries_view(r@) =~= entries_view(before).push((item.0@, item.1@)));
                assert(entries_view(self.entries@).take(i + 1) =~= entries_view(self.entries@).take(
                    i as int,
                ).push(entries_view(self.entries@)[i as int]));
            }
            i = i + 1;
        }
        proof {
            assert(entries_view(self.entries@).take(i as int) =~= entries_view(self.entries@));
        }
        r
    }

    /// The entries in the range of a scan by `key_prefix` from `from`, in
    /// ascending key order.
    fn entries_in_range(&self, key_prefix: &str, from: &[u8]) -> (r: Vec<TupleOfByte>)
        ensures
            is_listing(self.map@, encode_utf8(key_prefix@), from@, entries_view(r@)),
    {
        proof {
            use_type_invariant(self);
        }
        let prefix = key_prefix.as_bytes();
        let ghost p = encode_utf8(key_prefix@);
        let ghost m = self.map@;
        let ghost ev = entries_view(self.entries@);
        let mut r: Vec<TupleOfByte> = Vec::new();
        let ghost mut idx: Seq<int> = Seq::empty();
        let mut i: usize = 0;
        while i < self.entries.len()
            invariant
                i <= self.entries@.len(),
                prefix@ == p,
                ev == entries_view(self.entries@),
                m == self.map@,
                is_listing(m, Seq::empty(), Seq::empty(), ev),
                idx.len() == r@.len(),
                forall|a: int|
                    0 <= a < idx.len() ==> 0 <= #[trigger] idx[a] < i && entries_view(r@)[a]
                        == ev[idx[a]] && in_range(ev[idx[a]].0, p, from@),
                forall|a: int, b: int| 0 <= a < b < idx.len() ==> #[trigger] idx[a] < #[trigger] idx[b],
                forall|j: int|
                    0 <= j < i && in_range(#[trigger] ev[j].0, p, from@) ==> exists|a: int|
                        0 <= a < idx.len() && #[trigger] idx[a] == j,
            decreases self.entries.len() - i,
        {
            if key_in_range(self.entries[i].0.as_slice(), prefix, from) {
                let item: TupleOfByte = (
                    slice_to_vec(self.entries[i].0.as_slice()),
                    slice_to_vec(self.entries[i].1.as_slice()),
                );
                let ghost before = r@;
                let ghost old_idx = idx;
                r.push(item);
                proof {
                    idx = idx.push(i as int);
                    assert(r@ == before.push(item));
                    assert(entries_view(r@) =~= entries_view(before).push((item.0@, item.1@)));
                    assert forall|a: int|
                        0 <= a < idx.len() implies 0 <= #[trigger] idx[a] < i + 1 && entries_view(
                        r@,
                    )[a] == ev[idx[a]] && in_range(ev[idx[a]].0, p, from@) by {
                        if a < old_idx.len() {
                            assert(idx[a] == old_idx[a]);
                            assert(entries_view(r@)[a] == entries_view(before)[a]);
                        }
                    }
                    assert forall|j: int|
                        0 <= j < i + 1 && in_range(#[trigger] ev[j].0, p, from@) implies exists|a: int|
                        0 <= a < idx.len() && #[trigger] idx[a] == j by {
                        if j == i {
                            assert(idx[idx.len() - 1] == j);
                        } else {
                            let a = choose|a: int| 0 <= a < old_idx.len() && #[trigger] old_idx[a] == j;
                            assert(idx[a] == j);
                        }
                    }
                }
            }
            i = i + 1;
        }
        proof {
            let rv = entries_view(r@);
            assert forall|a: int, b: int| 0 <= a < b < rv.len() implies lex_lt(
                #[trigger] rv[a].0,
                #[trigger] rv[b].0,
            ) by {
                assert(idx[a] < idx[b]);
                assert(lex_lt(ev[idx[a]].0, ev[idx[b]].0));
            }
            assert forall|a: int| 0 <= a < rv.len() implies {
                &&& m.contains_key(#[trigger] rv[a].0)
                &&& m[rv[a].0] == rv[a].1
                &&& in_range(rv[a].0, p, from@)
            } by {
                assert(rv[a] == ev[idx[a]]);
            }
            assert forall|k: Seq<u8>| m.contains_key(k) && in_range(k, p, from@) implies exists|
                a: int,
            | 0 <= a < rv.len() && #[trigger] rv[a].0 == k by {
                lemma_full_range(k);
                let j = choose|j: int| 0 <= j < ev.len() && #[trigger] ev[j].0 == k;
                let a = choose|a: int| 0 <= a < idx.len() && #[trigger] idx[a] == j;
                assert(rv[a] == ev[j]);
            }
        }
        r
    }
}

} // verus!
