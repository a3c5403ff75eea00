use vstd::prelude::*;
use vstd::slice::slice_to_vec;

use crate::bytes::vec_eq;

verus! {

/// One stored record: a value and, where the `set` that wrote it gave
/// a time to live, an absolute expiry instant in milliseconds.
struct StoreEntry {
    key: Vec<u8>,
    value: Vec<u8>,
    expires_at: Option<u128>,
}

/// The model of one stored record.
pub struct EntryModel {
    pub value: Seq<u8>,
    pub expires_at: Option<u128>,
}

/// The model of a concrete record.
spec fn entry_model(e: StoreEntry) -> EntryModel {
    EntryModel { value: e.value@, expires_at: e.expires_at }
}

/// The mapping denoted by a sequence of records; a later record for
/// the same key shadows an earlier one.
spec fn store_map(s: Seq<StoreEntry>) -> Map<Seq<u8>, EntryModel>
    decreases s.len(),
{
    if s.len() == 0 {
        Map::empty()
    } else {
        store_map(s.drop_last()).insert(s.last().key@, entry_model(s.last()))
    }
}

/// Pairwise-distinct keys.
spec fn unique_keys(s: Seq<StoreEntry>) -> bool {
    forall|i: int, j: int| 0 <= i < j < s.len() ==> s[i].key@ != s[j].key@
}

/// The in-memory key-value mapping, with lazy expiry read against a
/// caller-supplied or wall-clock time.
pub struct Store {
    data: Vec<StoreEntry>,
}

impl View for Store {
    type V = Map<Seq<u8>, EntryModel>;

    closed spec fn view(&self) -> Map<Seq<u8>, EntryModel> {
        store_map(self.data@)
    }
}

/// The expiry instant a `set` at `now` with time to live `ttl`
/// records: their sum, saturated at the top of the clock's range.
pub open spec fn expiry_deadline(now: u128, ttl: u64) -> u128 {
    if now + ttl <= u128::MAX {
        (now + ttl) as u128
    } else {
        u128::MAX
    }
}

/// The mapping after a `set` of `key` to `value` performed at `now`.
pub open spec fn updated(
    m: Map<Seq<u8>, EntryModel>,
    key: Seq<u8>,
    value: Seq<u8>,
    expiry: Option<u64>,
    now: u128,
) -> Map<Seq<u8>, EntryModel> {
    m.insert(
        key,
        EntryModel {
            value,
            expires_at: match expiry {
                Option::None => Option::None,
                Option::Some(ttl) => Option::Some(expiry_deadline(now, ttl)),
            },
        },
    )
}

/// The value a `get` of `key` at time `now` observes: the stored
/// value while the key is present and not yet expired, and nothing
/// once an expiry instant at or before `now` is reached.
pub open spec fn live_value(m: Map<Seq<u8>, EntryModel>, key: Seq<u8>, now: u128) -> Option<
    Seq<u8>,
> {
    if m.contains_key(key) {
        match m[key].expires_at {
            Option::None => Option::Some(m[key].value),
            Option::Some(e) => {
                if e <= now {
                    Option::None
                } else {
                    Option::Some(m[key].value)
                }
            },
        }
    } else {
        Option::None
    }
}

/// How an executable lookup result corresponds to a point of the
/// lookup model.
pub open spec fn lookup_models(r: Option<Vec<u8>>, d: Option<Seq<u8>>) -> bool {
    match (r, d) {
        (Option::Some(v), Option::Some(s)) => v@ == s,
        (Option::None, Option::None) => true,
        _ => false,
    }
}

/// A key held by no record is absent from the denoted mapping.
proof fn lemma_store_map_absent(s: Seq<StoreEntry>, key: Seq<u8>)
    requires
        forall|i: int| 0 <= i < s.len() ==> s[i].key@ != key,
    ensures
        !store_map(s).contains_key(key),
    decreases s.len(),
{
    if s.len() > 0 {
        lemma_store_map_absent(s.drop_last(), key);
    }
}

/// The record holding a key gives that key's image in the denoted
/// mapping, provided keys are unique.
proof fn lemma_store_map_lookup(s: Seq<StoreEntry>, i: int)
    requires
        unique_keys(s),
        0 <= i < s.len(),
    ensures
        store_map(s).contains_key(s[i].key@),
        store_map(s)[s[i].key@] == entry_model(s[i]),
    decreases s.len(),
{
    if i == s.len() - 1 {
    } else {
        lemma_store_map_lookup(s.drop_last(), i);
    }
}

/// Replacing the record that holds a key re-points that key alone.
proof fn lemma_store_map_update(s: Seq<StoreEntry>, i: int, e: StoreEntry)
    requires
        unique_keys(s),
        0 <= i < s.len(),
        s[i].key@ == e.key@,
    ensures
        store_map(s.update(i, e)) =~= store_map(s).insert(e.key@, entry_model(e)),
    decreases s.len(),
{
    let t = s.update(i, e);
    if i == s.len() - 1 {
        assert(t.drop_last() =~= s.drop_last());
    } else {
        assert(t.drop_last() =~= s.drop_last().update(i, e));
        lemma_store_map_update(s.drop_last(), i, e);
        assert(t.last() == s.last());
        assert(s[i].key@ != s.last().key@);
    }
}

impl Default for Store {
    /// Makes an empty store.
    fn default() -> (s: Store)
        ensures
            s.wf(),
            s@ == Map::<Seq<u8>, EntryModel>::empty(),
    {
        Store::new()
    }
}

impl Store {
    /// Pairwise-distinct keys among the held records.
    pub closed spec fn wf(&self) -> bool {
        unique_keys(self.data@)
    }

    /// Makes an empty store.
    pub fn new() -> (s: Store)
        ensures
            s.wf(),
            s@ == Map::<Seq<u8>, EntryModel>::empty(),
    {
        Store { data: Vec::new() }
    }

    /// Relies on std::time::SystemTime::now and duration_since: the
    /// wall-clock time as milliseconds since the Unix epoch; a clock
    /// set before the epoch reads as zero.
    #[verifier::external_body]
    fn get_current_timestamp() -> u128 {
        std::time::SystemTime::now()
            .duration_since(std::time::UNIX_EPOCH)
            .map(|d| d.as_millis())
            .unwrap_or(0)
    }

    /// The position of the record holding `key`, if one does.
    fn find_index(&self, key: &Vec<u8>) -> (r: Option<usize>)
        ensures
            match r {
                Option::Some(i) => i < self.data@.len() && self.data@[i as int].key@ == key@,
                Option::None => forall|i: int|
                    0 <= i < self.data@.len() ==> self.data@[i].key@ != key@,
            },
    {
        let n: usize = self.data.len();
        let mut i: usize = 0;
        while i < n
            invariant
                i <= n,
                n == self.data@.len(),
                forall|k: int| 0 <= k < i ==> self.data@[k].key@ != key@,
            decreases n - i,
        {
            if vec_eq(&self.data[i].key, key) {
                return Option::Some(i);
            }
            i = i + 1;
        }
        Option::None
    }

    /// Inserts or fully replaces the entry for `key`, reading the
    /// clock at `now`; a time to live becomes an absolute expiry.
    pub fn set_at(&mut self, key: Vec<u8>, value: Vec<u8>, expiry: Option<u64>, now: u128)
        requires
            old(self).wf(),
        ensures
            final(self).wf(),
            final(self)@ == updated(old(self)@, key@, value@, expiry, now),
    {
        let expires_at: Option<u128> = match expiry {
            Option::None => Option::None,
            Option::Some(ttl) => {
                let wide: u128 = ttl as u128;
                if now <= u128::MAX - wide {
                    Option::Some(now + wide)
                } else {
                    Option::Some(u128::MAX)
                }
            },
        };
        let found = self.find_index(&key);
        let entry = StoreEntry { key, value, expires_at };
        match found {
            Option::Some(i) => {
                proof {
                    lemma_store_map_update(self.data@, i as int, entry);
                    assert forall|a: int, b: int|
                        0 <= a < b < self.data@.update(i as int, entry).len()
                            implies self.data@.update(i as int, entry)[a].key@
                            != self.data@.update(i as int, entry)[b].key@ by {
                        assert(self.data@[a].key@ != self.data@[b].key@);
                    }
                }
                self.data[i] = entry;
            },
            Option::None => {
                proof {
                    assert(self.data@.push(entry).drop_last() =~= self.data@);
                    let t = self.data@.push(entry);
                    assert forall|a: int, b: int| 0 <= a < b < t.len() implies t[a].key@
                        != t[b].key@ by {
                        if b < t.len() - 1 {
                            assert(self.data@[a].key@ != self.data@[b].key@);
                        }
                    }
                }
                self.data.push(entry);
            },
        }
    }

    /// Looks `key` up as of time `now`: a present, unexpired entry
    /// yields its value; an expired or absent one yields nothing.
    pub fn get_at(&self, key: &Vec<u8>, now: u128) -> (r: Option<Vec<u8>>)
        requires
            self.wf(),
        ensures
            lookup_models(r, live_value(self@, key@, now)),
    {
        match self.find_index(key) {
            Option::None => {
                proof {
                    lemma_store_map_absent(self.data@, key@);
                }
                Option::None
            },
            Option::Some(i) => {
                proof {
                    lemma_store_map_lookup(self.data@, i as int);
                }
                let entry = &self.data[i];
                match entry.expires_at {
                    Option::None => Option::Some(slice_to_vec(entry.value.as_slice())),
                    Option::Some(e) => {
                        if e <= now {
                            Option::None
                        } else {
                            Option::Some(slice_to_vec(entry.value.as_slice()))
                        }
                    },
                }
            },
        }
    }

    /// Inserts or fully replaces the entry for `key` at the current
    /// wall-clock time; with no time to live the entry never expires.
    pub fn set(&mut self, key: Vec<u8>, value: Vec<u8>, expiry: Option<u64>)
        requires
            old(self).wf(),
        ensures
            final(self).wf(),
            exists|now: u128| final(self)@ == updated(old(self)@, key@, value@, expiry, now),
            expiry is None ==> final(self)@ == updated(old(self)@, key@, value@, expiry, 0),
    {
        let now = Store::get_current_timestamp();
        self.set_at(key, value, expiry, now);
    }

    /// Looks `key` up at the current wall-clock time.
    pub fn get(&mut self, key: Vec<u8>) -> (r: Option<Vec<u8>>)
        requires
            old(self).wf(),
        ensures
            final(self).wf(),
            final(self)@ == old(self)@,
            exists|now: u128| lookup_models(r, live_value(final(self)@, key@, now)),
    {
        let now = Store::get_current_timestamp();
        self.get_at(&key, now)
    }
}

/// An empty store holds no live value, for any key and at any time.
pub proof fn lemma_get_on_empty(key: Seq<u8>, now: u128)
    ensures
        live_value(Map::empty(), key, now) is None,
{
}

/// After a set with no time to live, the key reads back its value at
/// every time whatever, however distant.
pub proof fn lemma_set_without_expiry_lasts(
    m: Map<Seq<u8>, EntryModel>,
    key: Seq<u8>,
    value: Seq<u8>,
    now: u128,
    at: u128,
)
    ensures
        live_value(updated(m, key, value, Option::None, now), key, at) == Option::Some(value),
{
}

/// After a set with a time to live, the key reads back its value at
/// every time before the recorded deadline and nothing from the
/// deadline on.
pub proof fn lemma_set_with_expiry(
    m: Map<Seq<u8>, EntryModel>,
    key: Seq<u8>,
    value: Seq<u8>,
    ttl: u64,
    now: u128,
    at: u128,
)
    ensures
        at < expiry_deadline(now, ttl) ==> live_value(
            updated(m, key, value, Option::Some(ttl), now),
            key,
            at,
        ) == Option::Some(value),
        at >= expiry_deadline(now, ttl) ==> live_value(
            updated(m, key, value, Option::Some(ttl), now),
            key,
            at,
        ) is None,
{
}

/// A second set fully replaces an entry: the key reads back the new
/// value at every time, and an expiry the first set gave no longer
/// applies.
pub proof fn lemma_set_replaces(
    m: Map<Seq<u8>, EntryModel>,
    key: Seq<u8>,
    value1: Seq<u8>,
    expiry1: Option<u64>,
    now1: u128,
    value2: Seq<u8>,
    now2: u128,
    at: u128,
)
    ensures
        live_value(
            updated(updated(m, key, value1, expiry1, now1), key, value2, Option::None, now2),
            key,
            at,
        ) == Option::Some(value2),
{
}

} // verus!
