//! The keyspace: a map from key to stored value, with an expiration time for
//! some keys. Expired keys are removed lazily when they are read.
use vstd::prelude::*;
use crate::types::{lemma_values_of, value_of, values_of, Value, DB_TYPE};

verus! {

/// One key with its value and its expiration time in milliseconds since the
/// Unix epoch; 0 means that the key does not expire.
pub struct Entry {
    pub key: String,
    pub value: DB_TYPE,
    pub expire_at: u128,
}

/// The keyspace and its expiration index.
pub struct Db {
    entries: Vec<Entry>,
}

pub open spec fn keys_unique(s: Seq<Entry>) -> bool {
    forall|i: int, j: int| 0 <= i < j < s.len() ==> s[i].key@ != s[j].key@
}

pub open spec fn has_key(s: Seq<Entry>, k: Seq<char>) -> bool {
    exists|i: int| 0 <= i < s.len() && s[i].key@ == k
}

pub open spec fn index_of(s: Seq<Entry>, k: Seq<char>) -> int {
    choose|i: int| 0 <= i < s.len() && s[i].key@ == k
}

pub open spec fn keyspace_of(s: Seq<Entry>) -> Map<Seq<char>, Value> {
    Map::new(|k: Seq<char>| has_key(s, k), |k: Seq<char>| s[index_of(s, k)].value@)
}

pub open spec fn expirations_of(s: Seq<Entry>) -> Map<Seq<char>, u128> {
    Map::new(
        |k: Seq<char>| has_key(s, k) && s[index_of(s, k)].expire_at > 0,
        |k: Seq<char>| s[index_of(s, k)].expire_at,
    )
}

/// Whether a key with this expiration entry has expired at `now`.
pub open spec fn expired(exp: Map<Seq<char>, u128>, k: Seq<char>, now: u128) -> bool {
    exp.contains_key(k) && exp[k] < now
}

pub proof fn lemma_index_of(s: Seq<Entry>, i: int)
    requires
        keys_unique(s),
        0 <= i < s.len(),
    ensures
        has_key(s, s[i].key@),
        index_of(s, s[i].key@) == i,
{
    let k = s[i].key@;
    assert(has_key(s, k));
    let j = index_of(s, k);
    if j != i {
        if j < i {
            assert(s[j].key@ != s[i].key@);
        } else {
            assert(s[i].key@ != s[j].key@);
        }
    }
}

/// The expiration index after the entry of `k` gets expiration time `t`.
pub open spec fn exp_with(exp: Map<Seq<char>, u128>, k: Seq<char>, t: u128) -> Map<Seq<char>, u128> {
    if t > 0 {
        exp.insert(k, t)
    } else {
        exp.remove(k)
    }
}

proof fn lemma_update_entry(s: Seq<Entry>, i: int, e: Entry)
    requires
        keys_unique(s),
        0 <= i < s.len(),
        e.key@ == s[i].key@,
    ensures
        keys_unique(s.update(i, e)),
        keyspace_of(s.update(i, e)) == keyspace_of(s).insert(e.key@, e.value@),
        expirations_of(s.update(i, e)) == exp_with(expirations_of(s), e.key@, e.expire_at),
{
    let s2 = s.update(i, e);
    let k = e.key@;
    assert forall|a: int, b: int| 0 <= a < b < s2.len() implies s2[a].key@ != s2[b].key@ by {
        assert(s[a].key@ != s[b].key@);
    }
    assert forall|k2: Seq<char>| #[trigger] has_key(s2, k2) == has_key(s, k2) by {
        if has_key(s, k2) {
            let j = index_of(s, k2);
            assert(s2[j].key@ == k2);
        }
        if has_key(s2, k2) {
            let j = index_of(s2, k2);
            assert(s[j].key@ == k2);
        }
    }
    lemma_index_of(s2, i);
    assert forall|k2: Seq<char>| has_key(s, k2) && k2 != k implies index_of(s2, k2) == index_of(s, k2)
        && s2[index_of(s2, k2)] == s[index_of(s, k2)] by {
        let j = index_of(s, k2);
        lemma_index_of(s, j);
        lemma_index_of(s2, j);
    }
    assert(keyspace_of(s2) =~= keyspace_of(s).insert(k, e.value@));
    assert(expirations_of(s2) =~= exp_with(expirations_of(s), k, e.expire_at));
}

pub proof fn lemma_push_entry(s: Seq<Entry>, e: Entry)
    requires
        keys_unique(s),
        !has_key(s, e.key@),
    ensures
        keys_unique(s.push(e)),
        keyspace_of(s.push(e)) == keyspace_of(s).insert(e.key@, e.value@),
        expirations_of(s.push(e)) == exp_with(expirations_of(s), e.key@, e.expire_at),
{
    let s2 = s.push(e);
    let k = e.key@;
    let n = s.len() as int;
    assert forall|a: int, b: int| 0 <= a < b < s2.len() implies s2[a].key@ != s2[b].key@ by {
        if b < n {
            assert(s[a].key@ != s[b].key@);
        } else {
            assert(s[a].key@ != k);
        }
    }
    assert forall|k2: Seq<char>| k2 != k implies #[trigger] has_key(s2, k2) == has_key(s, k2) by {
        if has_key(s, k2) {
            let j = index_of(s, k2);
            assert(s2[j].key@ == k2);
        }
        if has_key(s2, k2) {
            let j = index_of(s2, k2);
            assert(s[j].key@ == k2);
        }
    }
    assert(s2[n] == e);
    lemma_index_of(s2, n);
    assert forall|k2: Seq<char>| has_key(s, k2) && k2 != k implies index_of(s2, k2) == index_of(s, k2)
        && s2[index_of(s2, k2)] == s[index_of(s, k2)] by {
        let j = index_of(s, k2);
        lemma_index_of(s, j);
        lemma_index_of(s2, j);
    }
    assert(keyspace_of(s2) =~= keyspace_of(s).insert(k, e.value@));
    assert(expirations_of(s2) =~= exp_with(expirations_of(s), k, e.expire_at));
}

proof fn lemma_remove_entry(s: Seq<Entry>, i: int)
    requires
        keys_unique(s),
        0 <= i < s.len(),
    ensures
        keys_unique(s.remove(i)),
        keyspace_of(s.remove(i)) == keyspace_of(s).remove(s[i].key@),
        expirations_of(s.remove(i)) == expirations_of(s).remove(s[i].key@),
{
    let s2 = s.remove(i);
    let k = s[i].key@;
    assert forall|a: int, b: int| 0 <= a < b < s2.len() implies s2[a].key@ != s2[b].key@ by {
        let a1 = if a < i { a } else { a + 1 };
        let b1 = if b < i { b } else { b + 1 };
        assert(s[a1].key@ != s[b1].key@);
    }
    assert forall|k2: Seq<char>| k2 != k implies #[trigger] has_key(s2, k2) == has_key(s, k2) by {
        if has_key(s, k2) {
            let j = index_of(s, k2);
            let j2 = if j < i { j } else { j - 1 };
            assert(s2[j2].key@ == k2);
        }
        if has_key(s2, k2) {
            let j = index_of(s2, k2);
            let j1 = if j < i { j } else { j + 1 };
            assert(s[j1].key@ == k2);
        }
    }
    assert(!has_key(s2, k)) by {
        if has_key(s2, k) {
            let j = index_of(s2, k);
            let j1 = if j < i { j } else { j + 1 };
            assert(s[j1].key@ == k);
            lemma_index_of(s, j1);
            lemma_index_of(s, i);
        }
    }
    assert forall|k2: Seq<char>| has_key(s, k2) && k2 != k implies s2[index_of(s2, k2)] == s[index_of(
        s,
        k2,
    )] by {
        let j = index_of(s, k2);
        lemma_index_of(s, j);
        let j2 = if j < i { j } else { j - 1 };
        assert(s2[j2] == s[j]);
        lemma_index_of(s2, j2);
    }
    assert(keyspace_of(s2) =~= keyspace_of(s).remove(k));
    assert(expirations_of(s2) =~= expirations_of(s).remove(k));
}

/// A deep copy of a stored value.
pub fn clone_value(v: &DB_TYPE) -> (r: DB_TYPE)
    ensures
        r@ == v@,
    decreases v,
{
    match v {
        DB_TYPE::Int(i) => DB_TYPE::Int(*i),
        DB_TYPE::Str(s) => DB_TYPE::Str(s.clone()),
        DB_TYPE::Array(xs) => {
            let mut out: Vec<DB_TYPE> = Vec::new();
            let mut i: usize = 0;
            proof {
                lemma_values_of(xs@);
            }
            while i < xs.len()
                invariant
                    *v == DB_TYPE::Array(*xs),
                    i <= xs@.len(),
                    out@.len() == i,
                    forall|t: int| 0 <= t < i ==> #[trigger] value_of(out@[t]) == value_of(xs@[t]),
                decreases xs@.len() - i,
            {
                proof {
                    vstd::std_specs::vec::axiom_vec_index_decreases(*xs, i as int);
                    assert(decreases_to!(*v => (*v)->Array_0));
                }
                let c = clone_value(&xs[i]);
                out.push(c);
                i = i + 1;
            }
            proof {
                lemma_values_of(out@);
                lemma_values_of(xs@);
                assert(values_of(out@) =~= values_of(xs@));
            }
            DB_TYPE::Array(out)
        },
    }
}

impl Db {
    pub closed spec fn entries(&self) -> Seq<Entry> {
        self.entries@
    }

    /// The number of entries.
    pub fn entry_count(&self) -> (r: usize)
        ensures
            r == self.entries().len(),
    {
        self.entries.len()
    }

    /// The entry at position `i`.
    pub fn entry(&self, i: usize) -> (r: &Entry)
        requires
            i < self.entries().len(),
        ensures
            *r == self.entries()[i as int],
    {
        &self.entries[i]
    }

    /// Keys are unique.
    pub open spec fn wf(&self) -> bool {
        keys_unique(self.entries())
    }

    /// The keyspace, as a map from key to value.
    pub open spec fn keyspace(&self) -> Map<Seq<char>, Value> {
        keyspace_of(self.entries())
    }

    /// The expiration index: the keys that have an expiration time, with it.
    pub open spec fn expirations(&self) -> Map<Seq<char>, u128> {
        expirations_of(self.entries())
    }

    /// An empty keyspace.
    pub fn new() -> (r: Db)
        ensures
            r.wf(),
            r.keyspace() == Map::<Seq<char>, Value>::empty(),
            r.expirations() == Map::<Seq<char>, u128>::empty(),
    {
        let r = Db { entries: Vec::new() };
        assert(r.keyspace() =~= Map::<Seq<char>, Value>::empty());
        assert(r.expirations() =~= Map::<Seq<char>, u128>::empty());
        r
    }

    /// What a read of `k` at time `now` sees: nothing once the key has expired.
    pub open spec fn read(&self, k: Seq<char>, now: u128) -> Option<Value> {
        if expired(self.expirations(), k, now) {
            None
        } else {
            self.keyspace().get(k)
        }
    }

    /// The keyspace after a read of `k` at `now`, which drops the key if it has
    /// expired.
    pub open spec fn keyspace_after_read(&self, k: Seq<char>, now: u128) -> Map<Seq<char>, Value> {
        if expired(self.expirations(), k, now) {
            self.keyspace().remove(k)
        } else {
            self.keyspace()
        }
    }

    /// The expiration index after a read of `k` at `now`.
    pub open spec fn expirations_after_read(&self, k: Seq<char>, now: u128) -> Map<Seq<char>, u128> {
        if expired(self.expirations(), k, now) {
            self.expirations().remove(k)
        } else {
            self.expirations()
        }
    }

    /// Every key of the expiration index is in the keyspace.
    pub proof fn lemma_expirations_in_keyspace(&self)
        ensures
            self.expirations().dom().subset_of(self.keyspace().dom()),
    {
    }

    fn position(&self, k: &String) -> (r: Option<usize>)
        requires
            self.wf(),
        ensures
            match r {
                Some(i) => i < self.entries().len() && self.entries()[i as int].key@ == k@
                    && index_of(self.entries(), k@) == i,
                None => !has_key(self.entries(), k@),
            },
    {
        let mut i: usize = 0;
        while i < self.entries.len()
            invariant
                keys_unique(self.entries@),
                i <= self.entries@.len(),
                forall|t: int| 0 <= t < i ==> #[trigger] self.entries@[t].key@ != k@,
            decreases self.entries@.len() - i,
        {
            if self.entries[i].key == *k {
                proof {
                    lemma_index_of(self.entries@, i as int);
                }
                return Some(i);
            }
            i = i + 1;
        }
        None
    }
}

/// The views of a sequence of keys.
pub open spec fn key_views(ks: Seq<String>) -> Seq<Seq<char>> {
    ks.map_values(|s: String| s@)
}

/// How many of the keys are in `dom`, counting a key each time it is listed.
pub open spec fn count_present(dom: Set<Seq<char>>, ks: Seq<Seq<char>>) -> nat
    decreases ks.len(),
{
    if ks.len() == 0 {
        0
    } else {
        count_present(dom, ks.drop_last()) + if dom.contains(ks.last()) {
            1nat
        } else {
            0nat
        }
    }
}

/// How many distinct keys among `ks` are in `dom`.
pub open spec fn count_distinct_present(dom: Set<Seq<char>>, ks: Seq<Seq<char>>) -> nat
    decreases ks.len(),
{
    if ks.len() == 0 {
        0
    } else {
        count_distinct_present(dom, ks.drop_last()) + if dom.contains(ks.last()) && !ks.drop_last().contains(
            ks.last(),
        ) {
            1nat
        } else {
            0nat
        }
    }
}

/// The new value that INCR stores, given what a read sees; none when it fails.
pub open spec fn incremented(v: Option<Value>) -> Option<i64> {
    match v {
        None => Some(1),
        Some(Value::Int(n)) => if n < i64::MAX {
            Some((n + 1) as i64)
        } else {
            None
        },
        Some(_) => None,
    }
}

/// The new value that DECR stores, given what a read sees; none when it fails.
/// An absent key starts at 1, as INCR's does.
pub open spec fn decremented(v: Option<Value>) -> Option<i64> {
    match v {
        None => Some(1),
        Some(Value::Int(n)) => if n > i64::MIN {
            Some((n - 1) as i64)
        } else {
            None
        },
        Some(_) => None,
    }
}

/// The list that a push extends: empty for an absent key, none for a key that
/// holds something else.
pub open spec fn list_at(ks: Map<Seq<char>, Value>, k: Seq<char>) -> Option<Seq<Value>> {
    if !ks.contains_key(k) {
        Some(Seq::empty())
    } else {
        match ks[k] {
            Value::List(xs) => Some(xs),
            _ => None,
        }
    }
}

fn ok_text() -> (r: String)
    ensures
        r@ == "OK"@,
{
    "OK".to_string()
}

/// Inserts or overwrites `k`. A positive `t` becomes its expiration time;
/// otherwise the key keeps the one it had, if any.
pub fn set(db: &mut Db, k: String, v: DB_TYPE, t: u128) -> (r: Result<String, String>)
    requires
        old(db).wf(),
    ensures
        final(db).wf(),
        final(db).keyspace() == old(db).keyspace().insert(k@, v@),
        final(db).expirations() == (if t > 0 {
            old(db).expirations().insert(k@, t)
        } else {
            old(db).expirations()
        }),
        r matches Ok(s) && s@ == "OK"@,
{
    let ghost s0 = db.entries@;
    match db.position(&k) {
        Some(i) => {
            let prev = db.entries[i].expire_at;
            let e = Entry { key: k, value: v, expire_at: if t > 0 { t } else { prev } };
            proof {
                lemma_update_entry(s0, i as int, e);
                lemma_index_of(s0, i as int);
            }
            db.entries.set(i, e);
            assert(final(db).expirations() =~= (if t > 0 {
                old(db).expirations().insert(k@, t)
            } else {
                old(db).expirations()
            }));
        },
        None => {
            let e = Entry { key: k, value: v, expire_at: t };
            proof {
                lemma_push_entry(s0, e);
            }
            db.entries.push(e);
            assert(final(db).expirations() =~= (if t > 0 {
                old(db).expirations().insert(k@, t)
            } else {
                old(db).expirations()
            }));
        },
    }
    Ok(ok_text())
}

fn remove_key(db: &mut Db, k: &String) -> (r: bool)
    requires
        old(db).wf(),
    ensures
        final(db).wf(),
        r == old(db).keyspace().contains_key(k@),
        final(db).keyspace() == old(db).keyspace().remove(k@),
        final(db).expirations() == old(db).expirations().remove(k@),
{
    match db.position(k) {
        Some(i) => {
            proof {
                lemma_remove_entry(db.entries@, i as int);
            }
            db.entries.remove(i);
            true
        },
        None => {
            assert(final(db).keyspace() =~= old(db).keyspace().remove(k@));
            assert(final(db).expirations() =~= old(db).expirations().remove(k@));
            false
        },
    }
}

/// Reads `k` at time `now`: a key whose expiration time lies before `now` is
/// removed and reads as absent; otherwise a copy of its value is returned.
pub fn get(db: &mut Db, k: &str, now: u128) -> (r: Option<DB_TYPE>)
    requires
        old(db).wf(),
    ensures
        final(db).wf(),
        match r {
            Some(v) => old(db).read(k@, now) == Some(v@),
            None => old(db).read(k@, now) is None,
        },
        final(db).keyspace() == old(db).keyspace_after_read(k@, now),
        final(db).expirations() == old(db).expirations_after_read(k@, now),
{
    let key = k.to_owned();
    match db.position(&key) {
        Some(i) => {
            let e = db.entries[i].expire_at;
            if e > 0 && now > e {
                remove_key(db, &key);
                None
            } else {
                Some(clone_value(&db.entries[i].value))
            }
        },
        None => None,
    }
}

/// Removes each listed key, with its expiration time, and counts the distinct
/// keys that were present.
pub fn delete(db: &mut Db, keys: Vec<String>) -> (r: usize)
    requires
        old(db).wf(),
    ensures
        final(db).wf(),
        r == count_distinct_present(old(db).keyspace().dom(), key_views(keys@)),
        r <= keys@.len(),
        final(db).keyspace() == old(db).keyspace().remove_keys(key_views(keys@).to_set()),
        final(db).expirations() == old(db).expirations().remove_keys(key_views(keys@).to_set()),
{
    let ghost ks = key_views(keys@);
    let ghost dom = db.keyspace().dom();
    let mut count: usize = 0;
    let mut i: usize = 0;
    assert(ks.subrange(0, 0).to_set() =~= Set::<Seq<char>>::empty());
    assert(db.keyspace() =~= old(db).keyspace().remove_keys(ks.subrange(0, 0).to_set()));
    assert(db.expirations() =~= old(db).expirations().remove_keys(ks.subrange(0, 0).to_set()));
    while i < keys.len()
        invariant
            db.wf(),
            i <= keys@.len(),
            ks == key_views(keys@),
            dom == old(db).keyspace().dom(),
            count <= i,
            count == count_distinct_present(dom, ks.subrange(0, i as int)),
            db.keyspace() == old(db).keyspace().remove_keys(ks.subrange(0, i as int).to_set()),
            db.expirations() == old(db).expirations().remove_keys(ks.subrange(0, i as int).to_set()),
        decreases keys@.len() - i,
    {
        let ghost pre = ks.subrange(0, i as int);
        let ghost next = ks.subrange(0, i + 1);
        assert(next.drop_last() =~= pre);
        assert(next.last() == keys@[i as int]@);
        assert forall|x: Seq<char>| next.contains(x) <==> (pre.contains(x) || x == keys@[i as int]@) by {
            if pre.contains(x) {
                let w = choose|w: int| 0 <= w < pre.len() && pre[w] == x;
                assert(next[w] == x);
            }
            if x == keys@[i as int]@ {
                assert(next[i as int] == x);
            }
            if next.contains(x) && x != keys@[i as int]@ {
                let w = choose|w: int| 0 <= w < next.len() && next[w] == x;
                assert(pre[w] == x);
            }
        }
        let removed = remove_key(db, &keys[i]);
        if removed {
            count = count + 1;
        }
        i = i + 1;
        assert(db.keyspace() =~= old(db).keyspace().remove_keys(next.to_set()));
        assert(db.expirations() =~= old(db).expirations().remove_keys(next.to_set()));
    }
    assert(ks.subrange(0, i as int) =~= ks);
    count
}

/// Counts the listed keys that are in the keyspace, each time one is listed.
/// Expiration is not checked here.
pub fn exists_count(db: &Db, keys: Vec<String>) -> (r: usize)
    requires
        db.wf(),
    ensures
        r == count_present(db.keyspace().dom(), key_views(keys@)),
        r <= keys@.len(),
{
    let ghost ks = key_views(keys@);
    let mut count: usize = 0;
    let mut i: usize = 0;
    while i < keys.len()
        invariant
            db.wf(),
            i <= keys@.len(),
            ks == key_views(keys@),
            count <= i,
            count == count_present(db.keyspace().dom(), ks.subrange(0, i as int)),
        decreases keys@.len() - i,
    {
        assert(ks.subrange(0, i + 1).drop_last() =~= ks.subrange(0, i as int));
        if db.position(&keys[i]).is_some() {
            count = count + 1;
        }
        i = i + 1;
    }
    assert(ks.subrange(0, i as int) =~= ks);
    count
}

fn not_an_integer() -> (r: String)
    ensures
        r@ == "value is not an integer or out of range"@,
{
    "value is not an integer or out of range".to_string()
}

/// Adds one to the integer at `k`; an absent (or expired) key becomes 1. Fails
/// on a value that is not an integer, or is the largest one.
pub fn increment(db: &mut Db, k: &str, now: u128) -> (r: Result<String, String>)
    requires
        old(db).wf(),
    ensures
        final(db).wf(),
        final(db).expirations() == old(db).expirations_after_read(k@, now),
        match incremented(old(db).read(k@, now)) {
            Some(n) => r matches Ok(s) && s@ == "OK"@ && final(db).keyspace()
                == old(db).keyspace_after_read(k@, now).insert(k@, Value::Int(n)),
            None => r matches Err(e) && e@ == "value is not an integer or out of range"@
                && final(db).keyspace() == old(db).keyspace_after_read(k@, now),
        },
{
    let key = k.to_owned();
    match get(db, k, now) {
        Some(DB_TYPE::Int(i)) => {
            if i == i64::MAX {
                Err(not_an_integer())
            } else {
                set(db, key, DB_TYPE::Int(i + 1), 0)
            }
        },
        Some(_) => Err(not_an_integer()),
        None => set(db, key, DB_TYPE::Int(1), 0),
    }
}

/// Subtracts one from the integer at `k`; an absent (or expired) key becomes 1.
/// Fails on a value that is not an integer, or is the smallest one.
pub fn decrement(db: &mut Db, k: &str, now: u128) -> (r: Result<String, String>)
    requires
        old(db).wf(),
    ensures
        final(db).wf(),
        final(db).expirations() == old(db).expirations_after_read(k@, now),
        match decremented(old(db).read(k@, now)) {
            Some(n) => r matches Ok(s) && s@ == "OK"@ && final(db).keyspace()
                == old(db).keyspace_after_read(k@, now).insert(k@, Value::Int(n)),
            None => r matches Err(e) && e@ == "value is not an integer or out of range"@
                && final(db).keyspace() == old(db).keyspace_after_read(k@, now),
        },
{
    let key = k.to_owned();
    match get(db, k, now) {
        Some(DB_TYPE::Int(i)) => {
            if i == i64::MIN {
                Err(not_an_integer())
            } else {
                set(db, key, DB_TYPE::Int(i - 1), 0)
            }
        },
        Some(_) => Err(not_an_integer()),
        None => set(db, key, DB_TYPE::Int(1), 0),
    }
}

fn not_an_array() -> (r: String)
    ensures
        r@ == "Not an array"@,
{
    "Not an array".to_string()
}

/// A deep copy of the list that a push at `k` extends, or an error when `k`
/// holds something else.
fn list_copy(db: &Db, k: &String) -> (r: Result<Vec<DB_TYPE>, String>)
    requires
        db.wf(),
    ensures
        match list_at(db.keyspace(), k@) {
            Some(xs) => r matches Ok(v) && values_of(v@) == xs,
            None => r matches Err(e) && e@ == "Not an array"@,
        },
{
    match db.position(k) {
        None => {
            let v: Vec<DB_TYPE> = Vec::new();
            assert(values_of(v@) =~= Seq::<Value>::empty());
            Ok(v)
        },
        Some(i) => {
            match &db.entries[i].value {
                DB_TYPE::Array(xs) => {
                    let c = clone_value(&db.entries[i].value);
                    match c {
                        DB_TYPE::Array(v) => Ok(v),
                        _ => Err(not_an_array()),
                    }
                },
                _ => Err(not_an_array()),
            }
        },
    }
}

/// Prepends the values one at a time, so that the last one ends at the head;
/// an absent key starts as an empty list. Gives the new length, or fails when
/// `k` holds something other than a list.
pub fn lpush(db: &mut Db, k: &str, values: Vec<DB_TYPE>) -> (r: Result<usize, String>)
    requires
        old(db).wf(),
    ensures
        final(db).wf(),
        final(db).expirations() == old(db).expirations(),
        match list_at(old(db).keyspace(), k@) {
            Some(xs) => {
                let n = values_of(values@).reverse() + xs;
                &&& r matches Ok(m) && m == n.len()
                &&& final(db).keyspace() == old(db).keyspace().insert(k@, Value::List(n))
            },
            None => r matches Err(e) && e@ == "Not an array"@ && final(db).keyspace() == old(
                db,
            ).keyspace(),
        },
{
    let key = k.to_owned();
    let mut old_list = match list_copy(db, &key) {
        Ok(v) => v,
        Err(e) => return Err(e),
    };
    let ghost ol = old_list@;
    let ghost xs = values_of(ol);
    let ghost vals = values@;
    let mut rest = values;
    let mut out: Vec<DB_TYPE> = Vec::new();
    while rest.len() > 0
        invariant
            rest@ == vals.subrange(0, rest@.len() as int),
            out@.len() + rest@.len() == vals.len(),
            forall|t: int| 0 <= t < out@.len() ==> #[trigger] out@[t] == vals[vals.len() - 1 - t],
        decreases rest@.len(),
    {
        match rest.pop() {
            Some(x) => out.push(x),
            None => {},
        }
    }
    let ghost front = out@;
    out.append(&mut old_list);
    proof {
        lemma_values_of(vals);
        lemma_values_of(front);
        lemma_values_of(out@);
        lemma_values_of(ol);
        let want = values_of(vals).reverse() + xs;
        assert(values_of(out@).len() == want.len());
        assert forall|t: int| 0 <= t < want.len() implies values_of(out@)[t] == want[t] by {
            if t < front.len() {
                assert(out@[t] == front[t]);
            } else {
                assert(out@[t] == ol[t - front.len()]);
            }
        }
        assert(values_of(out@) =~= want);
    }
    let len = out.len();
    set(db, key, DB_TYPE::Array(out), 0);
    Ok(len)
}

/// Appends the values in order; an absent key starts as an empty list. Gives
/// the new length, or fails when `k` holds something other than a list.
pub fn rpush(db: &mut Db, k: &str, values: Vec<DB_TYPE>) -> (r: Result<usize, String>)
    requires
        old(db).wf(),
    ensures
        final(db).wf(),
        final(db).expirations() == old(db).expirations(),
        match list_at(old(db).keyspace(), k@) {
            Some(xs) => {
                let n = xs + values_of(values@);
                &&& r matches Ok(m) && m == n.len()
                &&& final(db).keyspace() == old(db).keyspace().insert(k@, Value::List(n))
            },
            None => r matches Err(e) && e@ == "Not an array"@ && final(db).keyspace() == old(
                db,
            ).keyspace(),
        },
{
    let key = k.to_owned();
    let mut out = match list_copy(db, &key) {
        Ok(v) => v,
        Err(e) => return Err(e),
    };
    let ghost front = out@;
    let ghost vals = values@;
    let mut rest = values;
    out.append(&mut rest);
    proof {
        lemma_values_of(vals);
        lemma_values_of(front);
        lemma_values_of(out@);
        let want = values_of(front) + values_of(vals);
        assert forall|t: int| 0 <= t < want.len() implies values_of(out@)[t] == want[t] by {
            if t < front.len() {
                assert(out@[t] == front[t]);
            } else {
                assert(out@[t] == vals[t - front.len()]);
            }
        }
        assert(values_of(out@) =~= want);
    }
    let len = out.len();
    set(db, key, DB_TYPE::Array(out), 0);
    Ok(len)
}

} // verus!
