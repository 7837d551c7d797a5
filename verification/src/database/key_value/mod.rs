//! The key-value tables that the database is made of.
pub mod history;
pub mod key;
pub mod mailbox;
pub mod message;
pub mod user;
use vstd::prelude::*;
use vstd::utf8::*;
use vstd::slice::slice_subrange;
use vstd::pervasive::arbitrary;

use crate::utility::bytes::{
    compare_bytes, lex_le, lex_lt, lemma_lex_asymmetric, lemma_lex_irreflexive,
    lemma_lex_same_head, lemma_lex_transitive, ByteOrder,
};
use crate::config::Config;
use crate::utility::error::Result;

verus! {

/// A key and its value, as the tables hand them out.
pub type TupleOfByte = (Vec<u8>, Vec<u8>);

/// The byte strings of the entries.
pub open spec fn entries_view(v: Seq<TupleOfByte>) -> Seq<(Seq<u8>, Seq<u8>)> {
    v.map_values(|t: TupleOfByte| (t.0@, t.1@))
}

/// `key` starts with `prefix`, and what follows the prefix is at least
/// `from` (the condition of a ranged scan).
pub open spec fn in_range(key: Seq<u8>, prefix: Seq<u8>, from: Seq<u8>) -> bool {
    &&& prefix.len() <= key.len()
    &&& key.take(prefix.len() as int) == prefix
    &&& lex_le(from, key.skip(prefix.len() as int))
}

/// `s` lists, in strictly ascending key order, exactly the entries of `m`
/// whose keys are in range.
pub open spec fn is_listing(
    m: Map<Seq<u8>, Seq<u8>>,
    prefix: Seq<u8>,
    from: Seq<u8>,
    s: Seq<(Seq<u8>, Seq<u8>)>,
) -> bool {
    &&& forall|i: int, j: int| 0 <= i < j < s.len() ==> lex_lt(#[trigger] s[i].0, #[trigger] s[j].0)
    &&& forall|i: int|
        0 <= i < s.len() ==> {
            &&& m.contains_key(#[trigger] s[i].0)
            &&& m[s[i].0] == s[i].1
            &&& in_range(s[i].0, prefix, from)
        }
    &&& forall|k: Seq<u8>|
        m.contains_key(k) && in_range(k, prefix, from) ==> exists|i: int|
            0 <= i < s.len() && #[trigger] s[i].0 == k
}

/// Every key is in the range of a scan with no prefix that starts at the
/// empty string.
pub proof fn lemma_full_range(k: Seq<u8>)
    ensures
        in_range(k, Seq::empty(), Seq::empty()),
{
    assert(k.take(0) =~= Seq::<u8>::empty());
    assert(k.skip(0) =~= k);
    if k.len() > 0 {
        assert(lex_lt(Seq::empty(), k));
    } else {
        assert(k =~= Seq::<u8>::empty());
    }
}

/// A listing is determined by the table and the range: any two listings of
/// the same range of the same table are equal.
pub proof fn lemma_listing_unique(
    m: Map<Seq<u8>, Seq<u8>>,
    prefix: Seq<u8>,
    from: Seq<u8>,
    s1: Seq<(Seq<u8>, Seq<u8>)>,
    s2: Seq<(Seq<u8>, Seq<u8>)>,
)
    requires
        is_listing(m, prefix, from, s1),
        is_listing(m, prefix, from, s2),
    ensures
        s1 == s2,
    decreases s1.len(),
{
    if s1.len() == 0 {
        if s2.len() > 0 {
            let k = s2[0].0;
            assert(m.contains_key(k) && in_range(k, prefix, from));
        }
        assert(s1 =~= s2);
    } else {
        if s2.len() == 0 {
            let k = s1[0].0;
            assert(m.contains_key(k) && in_range(k, prefix, from));
            assert(false);
        }
        let k1 = s1[0].0;
        let k2 = s2[0].0;
        assert(m.contains_key(k2) && in_range(k2, prefix, from));
        assert(m.contains_key(k1) && in_range(k1, prefix, from));
        let j = choose|j: int| 0 <= j < s1.len() && s1[j].0 == k2;
        let k = choose|k: int| 0 <= k < s2.len() && s2[k].0 == k1;
        if j > 0 {
            assert(lex_lt(s1[0].0, s1[j].0));
            if k > 0 {
                assert(lex_lt(s2[0].0, s2[k].0));
                lemma_lex_asymmetric(k1, k2);
            } else {
                lemma_lex_irreflexive(k1);
            }
        }
        assert(k1 == k2);
        let m2 = m.remove(k1);
        let t1 = s1.drop_first();
        let t2 = s2.drop_first();
        assert forall|i: int, jj: int| 0 <= i < jj < t1.len() implies lex_lt(
            #[trigger] t1[i].0,
            #[trigger] t1[jj].0,
        ) by {
            assert(t1[i] == s1[i + 1] && t1[jj] == s1[jj + 1]);
        }
        assert forall|i: int, jj: int| 0 <= i < jj < t2.len() implies lex_lt(
            #[trigger] t2[i].0,
            #[trigger] t2[jj].0,
        ) by {
            assert(t2[i] == s2[i + 1] && t2[jj] == s2[jj + 1]);
        }
        assert forall|i: int| 0 <= i < t1.len() implies {
            &&& m2.contains_key(#[trigger] t1[i].0)
            &&& m2[t1[i].0] == t1[i].1
            &&& in_range(t1[i].0, prefix, from)
        } by {
            assert(t1[i] == s1[i + 1]);
            assert(lex_lt(s1[0].0, s1[i + 1].0));
            lemma_lex_irreflexive(k1);
        }
        assert forall|i: int| 0 <= i < t2.len() implies {
            &&& m2.contains_key(#[trigger] t2[i].0)
            &&& m2[t2[i].0] == t2[i].1
            &&& in_range(t2[i].0, prefix, from)
        } by {
            assert(t2[i] == s2[i + 1]);
            assert(lex_lt(s2[0].0, s2[i + 1].0));
            lemma_lex_irreflexive(k1);
        }
        assert forall|kk: Seq<u8>| m2.contains_key(kk) && in_range(kk, prefix, from) implies exists|
            i: int,
        | 0 <= i < t1.len() && #[trigger] t1[i].0 == kk by {
            let i = choose|i: int| 0 <= i < s1.len() && s1[i].0 == kk;
            assert(i != 0);
            assert(t1[i - 1] == s1[i]);
        }
        assert forall|kk: Seq<u8>| m2.contains_key(kk) && in_range(kk, prefix, from) implies exists|
            i: int,
        | 0 <= i < t2.len() && #[trigger] t2[i].0 == kk by {
            let i = choose|i: int| 0 <= i < s2.len() && s2[i].0 == kk;
            assert(i != 0);
            assert(t2[i - 1] == s2[i]);
        }
        lemma_listing_unique(m2, prefix, from, t1, t2);
        assert(s1[0] == s2[0]);
        assert(s1 =~= seq![s1[0]] + t1);
        assert(s2 =~= seq![s2[0]] + t2);
    }
}

/// Keys in range of a scan that are ordered are ordered by what follows the
/// prefix.
proof fn lemma_in_range_order(k1: Seq<u8>, k2: Seq<u8>, prefix: Seq<u8>, from: Seq<u8>)
    requires
        in_range(k1, prefix, from),
        in_range(k2, prefix, from),
        lex_lt(k1, k2),
    ensures
        lex_lt(k1.skip(prefix.len() as int), k2.skip(prefix.len() as int)),
{
    let n = prefix.len() as int;
    assert(k1 =~= prefix + k1.skip(n));
    assert(k2 =~= prefix + k2.skip(n));
    lemma_lex_same_head(prefix, k1.skip(n), k2.skip(n));
}

/// A scan from `from2` of keys that follow an in-range key of a scan from
/// a lower `from1` keeps them.
proof fn lemma_range_upward(k1: Seq<u8>, k2: Seq<u8>, prefix: Seq<u8>, from1: Seq<u8>, from2: Seq<u8>)
    requires
        in_range(k1, prefix, from1),
        in_range(k2, prefix, from1),
        in_range(k1, prefix, from2),
        lex_lt(k1, k2),
    ensures
        in_range(k2, prefix, from2),
{
    let n = prefix.len() as int;
    lemma_in_range_order(k1, k2, prefix, from1);
    if k1.skip(n) != from2 {
        lemma_lex_transitive(from2, k1.skip(n), k2.skip(n));
    }
}

proof fn lemma_scan_suffix(
    m: Map<Seq<u8>, Seq<u8>>,
    prefix: Seq<u8>,
    from1: Seq<u8>,
    from2: Seq<u8>,
    s1: Seq<(Seq<u8>, Seq<u8>)>,
    s2: Seq<(Seq<u8>, Seq<u8>)>,
) -> (k: int)
    requires
        lex_le(from1, from2),
        is_listing(m, prefix, from1, s1),
        is_listing(m, prefix, from2, s2),
    ensures
        0 <= k <= s1.len(),
        s2 == s1.skip(k),
    decreases s1.len(),
{
    let n = prefix.len() as int;
    // what a scan from `from2` lists, a scan from `from1` lists too
    assert forall|kk: Seq<u8>| in_range(kk, prefix, from2) implies in_range(kk, prefix, from1) by {
        if from1 != from2 && kk.skip(n) != from2 {
            lemma_lex_transitive(from1, from2, kk.skip(n));
        }
    }
    if s1.len() == 0 {
        if s2.len() > 0 {
            assert(m.contains_key(s2[0].0) && in_range(s2[0].0, prefix, from2));
        }
        assert(s2 =~= s1.skip(0));
        0
    } else if in_range(s1[0].0, prefix, from2) {
        assert forall|i: int| 0 <= i < s1.len() implies in_range(#[trigger] s1[i].0, prefix, from2) by {
            if i > 0 {
                lemma_range_upward(s1[0].0, s1[i].0, prefix, from1, from2);
            }
        }
        assert(is_listing(m, prefix, from2, s1));
        lemma_listing_unique(m, prefix, from2, s2, s1);
        assert(s1.skip(0) =~= s1);
        0
    } else {
        let k0 = s1[0].0;
        let m2 = m.remove(k0);
        let t1 = s1.drop_first();
        assert forall|i: int, j: int| 0 <= i < j < t1.len() implies lex_lt(
            #[trigger] t1[i].0,
            #[trigger] t1[j].0,
        ) by {
            assert(t1[i] == s1[i + 1] && t1[j] == s1[j + 1]);
        }
        assert forall|i: int| 0 <= i < t1.len() implies {
            &&& m2.contains_key(#[trigger] t1[i].0)
            &&& m2[t1[i].0] == t1[i].1
            &&& in_range(t1[i].0, prefix, from1)
        } by {
            assert(t1[i] == s1[i + 1]);
            assert(lex_lt(s1[0].0, s1[i + 1].0));
            lemma_lex_irreflexive(k0);
        }
        assert forall|kk: Seq<u8>| m2.contains_key(kk) && in_range(kk, prefix, from1) implies exists|
            i: int,
        | 0 <= i < t1.len() && #[trigger] t1[i].0 == kk by {
            let i = choose|i: int| 0 <= i < s1.len() && s1[i].0 == kk;
            assert(i != 0);
            assert(t1[i - 1] == s1[i]);
        }
        assert forall|i: int| 0 <= i < s2.len() implies {
            &&& m2.contains_key(#[trigger] s2[i].0)
            &&& m2[s2[i].0] == s2[i].1
            &&& in_range(s2[i].0, prefix, from2)
        } by {
            assert(s2[i].0 != k0);
        }
        assert(is_listing(m2, prefix, from2, s2));
        assert(is_listing(m2, prefix, from1, t1));
        let k1 = lemma_scan_suffix(m2, prefix, from1, from2, t1, s2);
        assert(s1.skip(k1 + 1) =~= t1.skip(k1));
        k1 + 1
    }
}

/// A scan from a later start lists a tail of what a scan from an earlier
/// start lists, over the same table and prefix; a scan from the empty
/// start lists every entry whose key begins with the prefix.
pub proof fn law_scan_from_later_start(
    m: Map<Seq<u8>, Seq<u8>>,
    prefix: Seq<u8>,
    from1: Seq<u8>,
    from2: Seq<u8>,
    s1: Seq<(Seq<u8>, Seq<u8>)>,
    s2: Seq<(Seq<u8>, Seq<u8>)>,
)
    requires
        lex_le(from1, from2),
        is_listing(m, prefix, from1, s1),
        is_listing(m, prefix, from2, s2),
    ensures
        exists|k: int| 0 <= k <= s1.len() && s2 == #[trigger] s1.skip(k),
        from1 == Seq::<u8>::empty() ==> forall|key: Seq<u8>|
            #[trigger] m.contains_key(key) && prefix.len() <= key.len() && key.take(
                prefix.len() as int,
            ) == prefix ==> exists|i: int| 0 <= i < s1.len() && s1[i].0 == key,
{
    let k = lemma_scan_suffix(m, prefix, from1, from2, s1, s2);
    assert(s2 == s1.skip(k));
    if from1 == Seq::<u8>::empty() {
        assert forall|key: Seq<u8>|
            #[trigger] m.contains_key(key) && prefix.len() <= key.len() && key.take(
                prefix.len() as int,
            ) == prefix implies exists|i: int| 0 <= i < s1.len() && s1[i].0 == key by {
            let rest = key.skip(prefix.len() as int);
            if rest.len() > 0 {
                assert(lex_lt(Seq::<u8>::empty(), rest));
            } else {
                assert(rest =~= Seq::<u8>::empty());
            }
            assert(in_range(key, prefix, from1));
        }
    }
}

/// What a removal leaves: the key is gone, every other key keeps its value,
/// and removing the key again changes nothing.
pub proof fn law_remove(m: Map<Seq<u8>, Seq<u8>>, key: Seq<u8>, other: Seq<u8>)
    requires
        other != key,
    ensures
        !m.remove(key).contains_key(key),
        m.remove(key).contains_key(other) == m.contains_key(other),
        m.contains_key(other) ==> m.remove(key)[other] == m[other],
        m.remove(key).remove(key) == m.remove(key),
{
    assert(m.remove(key).remove(key) =~= m.remove(key));
}

/// Decides whether `key` is in the range of a scan by `prefix` from `from`.
pub fn key_in_range(key: &[u8], prefix: &[u8], from: &[u8]) -> (r: bool)
    ensures
        r == in_range(key@, prefix@, from@),
{
    if key.len() < prefix.len() {
        return false;
    }
    let head = slice_subrange(key, 0, prefix.len());
    match compare_bytes(head, prefix) {
        ByteOrder::Equal => {},
        _ => {
            assert(head@ =~= key@.take(prefix@.len() as int));
            return false;
        },
    }
    assert(head@ =~= key@.take(prefix@.len() as int));
    let rest = slice_subrange(key, prefix.len(), key.len());
    assert(rest@ =~= key@.skip(prefix@.len() as int));
    match compare_bytes(from, rest) {
        ByteOrder::Greater => false,
        _ => true,
    }
}

/// A key-value table of a storage backend, kept in ascending key order.
///
/// A backend writes through a shared reference; its tables are used through
/// [`BackedTable`], which states what each operation does.
pub trait KV {
    /// The value stored under `key`.
    fn get(&self, key: &[u8]) -> Result<Option<Vec<u8>>>;

    /// Stores `value` under `key`, replacing what was there.
    fn insert(&self, key: &[u8], value: &[u8]) -> Result<()>;

    /// Removes `key` and its value, if present.
    fn remove(&self, key: &[u8]) -> Result<()>;

    /// All entries, in ascending key order.
    fn iter(&self) -> Result<Vec<TupleOfByte>>;

    /// The entries whose key starts with `key_prefix` and continues with a
    /// byte string at least `from`, in ascending key order.
    fn iter_form(&self, key_prefix: &str, from: &[u8]) -> Result<Vec<TupleOfByte>>;
}

/// A storage backend: one store of named tables.
///
/// A backend gives its store to one engine only, and holds it so that
/// nothing else writes to it. It gives plain names (ASCII letters, digits
/// and `_`) that differ other than in the case of their letters distinct
/// tables. The engine gives each such table out once.
pub trait Backend: Sized {
    type Table: KV;

    /// Opens the store that `config` describes.
    fn open(config: &Config) -> Result<Self>;

    /// Opens the table named `name`, creating it if it does not exist.
    fn open_table(&self, name: &str) -> Result<Self::Table>;

    /// Writes out whatever the store holds back.
    fn flush(&self) -> Result<()>;
}

/// The one handle on a table of a storage backend, with what the table
/// holds.
pub struct BackedTable<B: KV> {
    backend: B,
    table: Ghost<Map<Seq<u8>, Seq<u8>>>,
    name: Ghost<Seq<char>>,
    store: Ghost<Option<Config>>,
}

impl<B: KV> BackedTable<B> {
    /// The name that the table was opened under.
    pub closed spec fn name(&self) -> Seq<char> {
        self.name@
    }

    /// The configuration of the engine that opened the table, if one did.
    pub closed spec fn store(&self) -> Option<Config> {
        self.store@
    }

    /// Records that the engine opened with `config` opened the table.
    pub(crate) fn set_store(&mut self, Ghost(config): Ghost<Config>)
        ensures
            final(self).store() == Some(config),
            final(self).name() == old(self).name(),
            final(self).contents() == old(self).contents(),
    {
        self.store = Ghost(Some(config));
    }
}

impl<B: KV> OrderedTable for BackedTable<B> {
    closed spec fn contents(&self) -> Map<Seq<u8>, Seq<u8>> {
        self.table@
    }

    open spec fn infallible(&self) -> bool {
        false
    }

    fn get(&self, key: &[u8]) -> (r: Result<Option<Vec<u8>>>) {
        backend_get(self, key)
    }

    fn insert(&mut self, key: &[u8], value: &[u8]) -> (r: Result<()>) {
        backend_insert(self, key, value)
    }

    fn remove(&mut self, key: &[u8]) -> (r: Result<()>) {
        backend_remove(self, key)
    }

    fn iter(&self) -> (r: Result<Vec<TupleOfByte>>) {
        backend_iter(self)
    }

    fn iter_form(&self, key_prefix: &str, from: &[u8]) -> (r: Result<Vec<TupleOfByte>>) {
        backend_iter_form(self, key_prefix, from)
    }
}

/// Trusted: the backend's `open_table` gives a handle on the table named
/// `name`. What the table holds is not known here: it becomes the contents
/// of the handle, which the operations below keep up to date. Only the
/// storage can fail.
#[verifier::external_body]
pub(crate) fn backend_open_table<B: Backend>(backend: &B, name: &str) -> (r: Result<
    BackedTable<B::Table>,
>)
    ensures
        r matches Ok(t) ==> t.name() == name@,
        r matches Err(e) ==> e is SqliteError,
{
    match backend.open_table(name) {
        Ok(t) => Ok(
            BackedTable {
                backend: t,
                table: Ghost(arbitrary()),
                name: Ghost(name@),
                store: Ghost(None),
            },
        ),
        Err(e) => Err(e),
    }
}

/// Trusted: the backend's `get` answers from the table that it stores.
///
/// The contents that this and the operations below speak of are those of
/// the table behind this handle, kept up to date by these operations
/// alone. That holds because this handle is the only one on its table:
/// the engine opens each plain name once, without regard to case; the
/// backend gives distinct such names distinct tables and lets nothing else
/// write to its store (the SQLite store holds its file through one
/// exclusive connection and opens a file once per process).
#[verifier::external_body]
fn backend_get<B: KV>(t: &BackedTable<B>, key: &[u8]) -> (r: Result<Option<Vec<u8>>>)
    ensures
        match r {
            Ok(Some(v)) => t.contents().contains_key(key@) && v@ == t.contents()[key@],
            Ok(None) => !t.contents().contains_key(key@),
            Err(e) => e is SqliteError,
        },
{
    t.backend.get(key)
}

/// Trusted: the backend's `insert` stores `value` under `key`, replacing
/// what was there, and changes nothing when it fails.
#[verifier::external_body]
fn backend_insert<B: KV>(t: &mut BackedTable<B>, key: &[u8], value: &[u8]) -> (r: Result<()>)
    ensures
        r is Ok ==> final(t).contents() == old(t).contents().insert(key@, value@),
        r matches Err(e) ==> e is SqliteError && final(t).contents() == old(t).contents(),
{
    t.backend.insert(key, value)
}

/// Trusted: the backend's `remove` drops `key`, and changes nothing when it
/// fails.
#[verifier::external_body]
fn backend_remove<B: KV>(t: &mut BackedTable<B>, key: &[u8]) -> (r: Result<()>)
    ensures
        r is Ok ==> final(t).contents() == old(t).contents().remove(key@),
        r matches Err(e) ==> e is SqliteError && final(t).contents() == old(t).contents(),
{
    t.backend.remove(key)
}

/// Trusted: the backend's `iter` lists the whole table in ascending byte
/// order of the keys, or fails with a storage error.
#[verifier::external_body]
fn backend_iter<B: KV>(t: &BackedTable<B>) -> (r: Result<Vec<TupleOfByte>>)
    ensures
        match r {
            Ok(v) => is_listing(t.contents(), Seq::empty(), Seq::empty(), entries_view(v@)),
            Err(e) => e is SqliteError,
        },
{
    t.backend.iter()
}

/// Trusted: the backend's `iter_form` lists, in ascending byte order of the
/// keys, exactly the entries whose key begins with the UTF-8 bytes of
/// `key_prefix` and goes on with bytes at least `from`, or fails with a
/// storage error.
#[verifier::external_body]
fn backend_iter_form<B: KV>(t: &BackedTable<B>, key_prefix: &str, from: &[u8]) -> (r: Result<
    Vec<TupleOfByte>,
>)
    ensures
        match r {
            Ok(v) => is_listing(t.contents(), encode_utf8(key_prefix@), from@, entries_view(v@)),
            Err(e) => e is SqliteError,
        },
{
    t.backend.iter_form(key_prefix, from)
}

/// A key-value table whose keys are kept in ascending byte order.
///
/// The storage engines give their tables through it; `contents` is the table as a map and
/// `infallible` says that the backend never reports a failure.
pub trait OrderedTable: Sized {
    spec fn contents(&self) -> Map<Seq<u8>, Seq<u8>>;

    spec fn infallible(&self) -> bool;

    /// The value stored under `key`.
    fn get(&self, key: &[u8]) -> (r: Result<Option<Vec<u8>>>)
        ensures
            self.infallible() ==> r is Ok,
            match r {
                Ok(Some(v)) => self.contents().contains_key(key@) && v@ == self.contents()[key@],
                Ok(None) => !self.contents().contains_key(key@),
                Err(e) => e is SqliteError,
            },
    ;

    /// Stores `value` under `key`, replacing what was there.
    fn insert(&mut self, key: &[u8], value: &[u8]) -> (r: Result<()>)
        ensures
            final(self).infallible() == old(self).infallible(),
            old(self).infallible() ==> r is Ok,
            r is Ok ==> final(self).contents() == old(self).contents().insert(key@, value@),
            r matches Err(e) ==> e is SqliteError && final(self).contents() == old(
                self,
            ).contents(),
    ;

    /// Removes `key` and its value, if present.
    fn remove(&mut self, key: &[u8]) -> (r: Result<()>)
        ensures
            final(self).infallible() == old(self).infallible(),
            old(self).infallible() ==> r is Ok,
            r is Ok ==> final(self).contents() == old(self).contents().remove(key@),
            r matches Err(e) ==> e is SqliteError && final(self).contents() == old(
                self,
            ).contents(),
    ;

    /// All entries, in ascending key order.
    fn iter(&self) -> (r: Result<Vec<TupleOfByte>>)
        ensures
            self.infallible() ==> r is Ok,
            match r {
                Ok(v) => is_listing(self.contents(), Seq::empty(), Seq::empty(), entries_view(v@)),
                Err(e) => e is SqliteError,
            },
    ;

    /// The entries whose key starts with `key_prefix` and continues with a
    /// byte string at least `from`, in ascending key order.
    fn iter_form(&self, key_prefix: &str, from: &[u8]) -> (r: Result<Vec<TupleOfByte>>)
        ensures
            self.infallible() ==> r is Ok,
            match r {
                Ok(v) => is_listing(
                    self.contents(),
                    encode_utf8(key_prefix@),
                    from@,
                    entries_view(v@),
                ),
                Err(e) => e is SqliteError,
            },
    ;
}

} // verus!
