//! Open-addressing hash table from strings to strings.
//!
//! Slots live in one flat vector.  A key hashes to a home slot; collisions
//! are resolved by linear probing with stride 1, wrapping modulo the
//! capacity.  Lookups skip tombstones and stop at the first never-occupied
//! slot; inserts reuse the first non-live slot on the probe path.  When the
//! load factor (entries x 100 / capacity) exceeds 50 at the start of a
//! `put`, the table doubles its capacity and rehashes every live entry.
use vstd::prelude::*;

verus! {

/// Greatest capacity the table will ever hold; keeps every intermediate
/// product inside the machine integers that the table computes with.
pub const K_CAP_LIMIT: usize = 0x2000_0000;

/// Greatest entry count that `put` accepts; leaves room for one doubling
/// below `K_CAP_LIMIT`.
pub const K_LEN_LIMIT: usize = 0x0400_0000;

/// A key type for the table: reducible to a `u32` that is a function of
/// the key's value alone.
pub trait Hashable {
    spec fn hash_spec(&self) -> u32;

    fn hash(&self) -> (h: u32)
        ensures
            h == self.hash_spec(),
    ;
}

/// One step of FNV-1a: mix one byte into the running hash.
pub open spec fn fnv1a_step(h: u32, b: u8) -> u32 {
    (((h ^ (b as u32)) as nat * 16777619nat) % 0x1_0000_0000nat) as u32
}

/// FNV-1a over a byte sequence, 32-bit variant.
pub open spec fn fnv1a(bytes: Seq<u8>) -> u32
    decreases bytes.len(),
{
    if bytes.len() == 0 {
        0x811c9dc5u32
    } else {
        fnv1a_step(fnv1a(bytes.drop_last()), bytes.last())
    }
}

/// The hash a string key reduces to: FNV-1a over its UTF-8 bytes.
pub open spec fn str_hash(k: Seq<char>) -> u32 {
    fnv1a(vstd::utf8::encode_utf8(k))
}

impl Hashable for String {
    open spec fn hash_spec(&self) -> u32 {
        str_hash(self@)
    }

    fn hash(&self) -> (h: u32) {
        let bytes: &[u8] = self.as_str().as_bytes();
        let n: usize = bytes.len();
        let mut h: u32 = 0x811c9dc5;
        let mut i: usize = 0;
        while i < n
            invariant
                n == bytes@.len(),
                i <= n,
                h == fnv1a(bytes@.take(i as int)),
            decreases n - i,
        {
            let b: u8 = bytes[i];
            proof {
                assert(bytes@.take(i + 1).drop_last() =~= bytes@.take(i as int));
                assert(bytes@.take(i + 1).last() == b);
            }
            h = (h ^ (b as u32)).wrapping_mul(16777619);
            i = i + 1;
        }
        proof {
            assert(bytes@.take(n as int) =~= bytes@);
        }
        h
    }
}

/// One slot of the table.  A slot is never-occupied (`key` is `None`),
/// live (`key` is `Some` and `empty` is false), or a tombstone (`key` is
/// `Some` and `empty` is true).  Tombstones keep their key so that probe
/// paths through them stay intact.
#[derive(Debug)]
pub struct Entry {
    pub key: Option<String>,
    pub value: Option<String>,
    pub empty: bool,
    pub int_key: u32,
}

impl Entry {
    /// A live slot holds a key and has not been deleted.
    pub open spec fn is_live(self) -> bool {
        self.key is Some && !self.empty
    }

    /// A never-occupied slot: probes may stop here.
    pub open spec fn is_free(self) -> bool {
        self.key is None
    }

    /// The key of a live or tombstone slot.
    pub open spec fn skey(self) -> Seq<char> {
        self.key.unwrap()@
    }

    /// The value of a live slot.
    pub open spec fn sval(self) -> Seq<char> {
        self.value.unwrap()@
    }

    /// A live slot carries a value.
    pub open spec fn inv(self) -> bool {
        self.is_live() ==> self.value is Some
    }

    pub fn new() -> (e: Entry)
        ensures
            e.is_free(),
            !e.is_live(),
            e.inv(),
    {
        Entry { key: None, value: None, int_key: 0, empty: true }
    }

    /// Turn this slot into a live entry for `key` -> `value`, caching the
    /// key's hash.
    pub fn populate(&mut self, key: String, value: String)
        ensures
            final(self).is_live(),
            !final(self).is_free(),
            final(self).inv(),
            final(self).skey() == key@,
            final(self).sval() == value@,
            final(self).int_key == str_hash(key@),
    {
        let h = key.hash();
        self.key = Some(key);
        self.value = Some(value);
        self.int_key = h;
        self.empty = false;
    }
}

/// Number of live slots in a slot sequence.
pub open spec fn count_live(s: Seq<Entry>) -> nat
    decreases s.len(),
{
    if s.len() == 0 {
        0
    } else {
        count_live(s.drop_last()) + if s.last().is_live() {
            1nat
        } else {
            0nat
        }
    }
}

/// The mapping a slot sequence denotes: every live slot contributes its
/// key and value.
pub open spec fn slots_view(s: Seq<Entry>) -> Map<Seq<char>, Seq<char>>
    decreases s.len(),
{
    if s.len() == 0 {
        Map::empty()
    } else if s.last().is_live() {
        slots_view(s.drop_last()).insert(s.last().skey(), s.last().sval())
    } else {
        slots_view(s.drop_last())
    }
}

/// The keys of the live slots, in slot order.
pub open spec fn live_keys(s: Seq<Entry>) -> Seq<Seq<char>>
    decreases s.len(),
{
    if s.len() == 0 {
        Seq::empty()
    } else if s.last().is_live() {
        live_keys(s.drop_last()).push(s.last().skey())
    } else {
        live_keys(s.drop_last())
    }
}

/// Number of probe steps from home slot `h` to slot `i`, walking forward
/// with wrap-around in a table of `cap` slots.
pub open spec fn probe_dist(cap: int, h: int, i: int) -> int {
    if i >= h {
        i - h
    } else {
        i - h + cap
    }
}

/// The home slot of key `k` in a table of `cap` slots.
pub open spec fn home_slot(k: Seq<char>, cap: int) -> int {
    str_hash(k) as int % cap
}

/// No two live slots of `s` hold the same key.
pub open spec fn seq_unique(s: Seq<Entry>) -> bool {
    forall|i: int, j: int|
        0 <= i < s.len() && 0 <= j < s.len() && i != j && #[trigger] s[i].is_live()
            && #[trigger] s[j].is_live() ==> s[i].skey() != s[j].skey()
}

proof fn lemma_view_contains(s: Seq<Entry>, k: Seq<char>)
    ensures
        slots_view(s).contains_key(k) <==> (exists|i: int|
            0 <= i < s.len() && (#[trigger] s[i]).is_live() && s[i].skey() == k),
    decreases s.len(),
{
    if s.len() > 0 {
        let dl = s.drop_last();
        lemma_view_contains(dl, k);
        if slots_view(s).contains_key(k) {
            if s.last().is_live() && s.last().skey() == k {
                assert((s[s.len() - 1]).is_live() && s[s.len() - 1].skey() == k);
            } else {
                let i = choose|i: int|
                    0 <= i < dl.len() && (#[trigger] dl[i]).is_live() && dl[i].skey() == k;
                assert((s[i]).is_live() && s[i].skey() == k);
            }
        }
        if exists|i: int| 0 <= i < s.len() && (#[trigger] s[i]).is_live() && s[i].skey() == k {
            let i = choose|i: int|
                0 <= i < s.len() && (#[trigger] s[i]).is_live() && s[i].skey() == k;
            if i < s.len() - 1 {
                assert((dl[i]).is_live() && dl[i].skey() == k);
            }
        }
    }
}

proof fn lemma_view_value(s: Seq<Entry>, i: int)
    requires
        seq_unique(s),
        0 <= i < s.len(),
        s[i].is_live(),
    ensures
        slots_view(s).contains_key(s[i].skey()),
        slots_view(s)[s[i].skey()] == s[i].sval(),
    decreases s.len(),
{
    let dl = s.drop_last();
    if i == s.len() - 1 {
    } else {
        assert(seq_unique(dl)) by {
            assert(forall|a: int, b: int|
                0 <= a < dl.len() && 0 <= b < dl.len() && a != b && #[trigger] dl[a].is_live()
                    && #[trigger] dl[b].is_live() ==> s[a].is_live() && s[b].is_live());
        }
        lemma_view_value(dl, i);
        if s.last().is_live() {
            assert(s[s.len() - 1].is_live() && s[i].is_live());
            assert(s.last().skey() != s[i].skey());
        }
    }
}

proof fn lemma_count_le(s: Seq<Entry>)
    ensures
        count_live(s) <= s.len(),
    decreases s.len(),
{
    if s.len() > 0 {
        lemma_count_le(s.drop_last());
    }
}

proof fn lemma_all_live_full(s: Seq<Entry>)
    requires
        forall|j: int| 0 <= j < s.len() ==> (#[trigger] s[j]).is_live(),
    ensures
        count_live(s) == s.len(),
    decreases s.len(),
{
    if s.len() > 0 {
        let dl = s.drop_last();
        assert(forall|j: int| 0 <= j < dl.len() ==> (#[trigger] dl[j]) == s[j]);
        lemma_all_live_full(dl);
    }
}

/// Inserting a fresh live entry into a non-live slot adds one binding.
proof fn lemma_update_insert(s: Seq<Entry>, i: int, e: Entry)
    requires
        0 <= i < s.len(),
        !s[i].is_live(),
        e.is_live(),
        forall|j: int|
            0 <= j < s.len() && (#[trigger] s[j]).is_live() ==> s[j].skey() != e.skey(),
    ensures
        slots_view(s.update(i, e)) =~= slots_view(s).insert(e.skey(), e.sval()),
        count_live(s.update(i, e)) == count_live(s) + 1,
    decreases s.len(),
{
    let t = s.update(i, e);
    if i == s.len() - 1 {
        assert(t.drop_last() =~= s.drop_last());
        assert(t.last() == e);
    } else {
        let dl = s.drop_last();
        assert(t.drop_last() =~= dl.update(i, e));
        assert(forall|j: int| 0 <= j < dl.len() ==> (#[trigger] dl[j]) == s[j]);
        lemma_update_insert(dl, i, e);
        assert(t.last() == s.last());
        if s.last().is_live() {
            assert(s[s.len() - 1].is_live());
            assert(s.last().skey() != e.skey());
            assert(slots_view(t) =~= slots_view(s).insert(e.skey(), e.sval()));
        }
    }
}

/// Overwriting the value of the (unique) live slot for a key updates that
/// key's binding and nothing else.
proof fn lemma_update_overwrite(s: Seq<Entry>, i: int, e: Entry)
    requires
        seq_unique(s),
        0 <= i < s.len(),
        s[i].is_live(),
        e.is_live(),
        e.skey() == s[i].skey(),
    ensures
        slots_view(s.update(i, e)) =~= slots_view(s).insert(e.skey(), e.sval()),
        count_live(s.update(i, e)) == count_live(s),
        live_keys(s.update(i, e)) == live_keys(s),
    decreases s.len(),
{
    let t = s.update(i, e);
    if i == s.len() - 1 {
        assert(t.drop_last() =~= s.drop_last());
        assert(t.last() == e);
        assert(live_keys(t) == live_keys(s.drop_last()).push(e.skey()));
    } else {
        let dl = s.drop_last();
        assert(t.drop_last() =~= dl.update(i, e));
        assert(forall|j: int| 0 <= j < dl.len() ==> (#[trigger] dl[j]) == s[j]);
        assert(seq_unique(dl));
        lemma_update_overwrite(dl, i, e);
        assert(t.last() == s.last());
        if s.last().is_live() {
            assert(s[s.len() - 1].is_live() && s[i].is_live());
            assert(s.last().skey() != e.skey());
            assert(slots_view(t) =~= slots_view(s).insert(e.skey(), e.sval()));
        }
    }
}

/// Tombstoning the (unique) live slot for a key removes that key's binding
/// and nothing else.
proof fn lemma_update_delete(s: Seq<Entry>, i: int, e: Entry)
    requires
        seq_unique(s),
        0 <= i < s.len(),
        s[i].is_live(),
        !e.is_live(),
    ensures
        slots_view(s.update(i, e)) =~= slots_view(s).remove(s[i].skey()),
        count_live(s.update(i, e)) == count_live(s) - 1,
    decreases s.len(),
{
    let t = s.update(i, e);
    let k = s[i].skey();
    if i == s.len() - 1 {
        assert(t.drop_last() =~= s.drop_last());
        assert(!slots_view(s.drop_last()).contains_key(k)) by {
            lemma_view_contains(s.drop_last(), k);
            if exists|j: int|
                0 <= j < s.drop_last().len() && (#[trigger] s.drop_last()[j]).is_live()
                    && s.drop_last()[j].skey() == k {
                let j = choose|j: int|
                    0 <= j < s.drop_last().len() && (#[trigger] s.drop_last()[j]).is_live()
                        && s.drop_last()[j].skey() == k;
                assert(s[j].is_live() && s[i].is_live());
            }
        }
    } else {
        let dl = s.drop_last();
        assert(t.drop_last() =~= dl.update(i, e));
        assert(forall|j: int| 0 <= j < dl.len() ==> (#[trigger] dl[j]) == s[j]);
        assert(seq_unique(dl));
        lemma_update_delete(dl, i, e);
        assert(t.last() == s.last());
        if s.last().is_live() {
            assert(s[s.len() - 1].is_live() && s[i].is_live());
            assert(s.last().skey() != k);
            assert(slots_view(t) =~= slots_view(s).remove(k));
        }
    }
}

proof fn lemma_live_keys_len(s: Seq<Entry>)
    ensures
        live_keys(s).len() == count_live(s),
    decreases s.len(),
{
    if s.len() > 0 {
        lemma_live_keys_len(s.drop_last());
    }
}

proof fn lemma_live_keys_contains(s: Seq<Entry>, k: Seq<char>)
    ensures
        live_keys(s).contains(k) <==> slots_view(s).contains_key(k),
    decreases s.len(),
{
    if s.len() > 0 {
        let dl = s.drop_last();
        lemma_live_keys_contains(dl, k);
        if s.last().is_live() {
            assert(live_keys(s) == live_keys(dl).push(s.last().skey()));
            if live_keys(dl).contains(k) {
                let j = choose|j: int| 0 <= j < live_keys(dl).len() && live_keys(dl)[j] == k;
                assert(live_keys(s)[j] == k);
            }
            if live_keys(s).contains(k) {
                let j = choose|j: int| 0 <= j < live_keys(s).len() && live_keys(s)[j] == k;
                if j < live_keys(dl).len() {
                    assert(live_keys(dl)[j] == k);
                } else {
                    assert(k == s.last().skey());
                }
            }
            assert(k == s.last().skey() ==> live_keys(s).contains(k)) by {
                if k == s.last().skey() {
                    assert(live_keys(s).last() == k);
                }
            }
        }
    }
}

proof fn lemma_live_keys_no_dup(s: Seq<Entry>)
    requires
        seq_unique(s),
    ensures
        live_keys(s).no_duplicates(),
    decreases s.len(),
{
    if s.len() > 0 {
        let dl = s.drop_last();
        assert(forall|j: int| 0 <= j < dl.len() ==> (#[trigger] dl[j]) == s[j]);
        assert(seq_unique(dl));
        lemma_live_keys_no_dup(dl);
        if s.last().is_live() {
            assert(!live_keys(dl).contains(s.last().skey())) by {
                lemma_live_keys_contains(dl, s.last().skey());
                lemma_view_contains(dl, s.last().skey());
                if exists|j: int|
                    0 <= j < dl.len() && (#[trigger] dl[j]).is_live() && dl[j].skey()
                        == s.last().skey() {
                    let j = choose|j: int|
                        0 <= j < dl.len() && (#[trigger] dl[j]).is_live() && dl[j].skey()
                            == s.last().skey();
                    assert(s[j].is_live() && s[s.len() - 1].is_live());
                }
            }
            assert(live_keys(s) == live_keys(dl).push(s.last().skey()));
        }
    }
}

/// String-keyed hash table with open addressing and linear probing.
#[derive(Debug)]
pub struct OAMap {
    pub arr: Vec<Entry>,
    pub entry_count: usize,
    pub capacity: usize,
    pub cap_ratio: usize,
}

impl View for OAMap {
    type V = Map<Seq<char>, Seq<char>>;

    open spec fn view(&self) -> Map<Seq<char>, Seq<char>> {
        slots_view(self.arr@)
    }
}

impl OAMap {
    pub open spec fn spec_cap(self) -> int {
        self.arr@.len() as int
    }

    /// No two live slots hold the same key.
    pub open spec fn unique_keys(self) -> bool {
        seq_unique(self.arr@)
    }

    /// No never-occupied slot sits on the probe path of a live entry:
    /// walking from the entry's home slot, every slot strictly before it
    /// holds a key (live or tombstone).
    pub open spec fn probe_ok(self) -> bool {
        forall|i: int, j: int|
            0 <= i < self.spec_cap() && 0 <= j < self.spec_cap()
                && #[trigger] self.arr@[i].is_live() && probe_dist(
                self.spec_cap(),
                home_slot(self.arr@[i].skey(), self.spec_cap()),
                j,
            ) < probe_dist(
                self.spec_cap(),
                home_slot(self.arr@[i].skey(), self.spec_cap()),
                i,
            ) ==> !(#[trigger] self.arr@[j].is_free())
    }

    /// Well-formedness: the advertised counters match the slots, keys are
    /// unique, probe paths are intact, and the table is within its size
    /// limits.
    pub open spec fn wf(self) -> bool {
        &&& self.arr@.len() == self.capacity
        &&& 1 <= self.capacity <= K_CAP_LIMIT
        &&& self.entry_count == count_live(self.arr@)
        &&& 100 * self.entry_count <= 51 * self.capacity + 99
        &&& self.cap_ratio == 100 * (self.entry_count as int) / (self.capacity as int)
        &&& self.unique_keys()
        &&& self.probe_ok()
        &&& forall|i: int| 0 <= i < self.spec_cap() ==> (#[trigger] self.arr@[i]).inv()
    }

    /// Number of entries the table advertises.
    pub open spec fn spec_len(self) -> nat {
        self.entry_count as nat
    }

    /// The keys of the table's live slots, in slot order.
    pub open spec fn key_seq(self) -> Seq<Seq<char>> {
        live_keys(self.arr@)
    }

    /// A fresh table with the default capacity.
    pub fn new() -> (m: OAMap)
        ensures
            m.wf(),
            m@ =~= Map::<Seq<char>, Seq<char>>::empty(),
            m.spec_len() == 0,
            m.capacity == 1000,
    {
        OAMap::new_with_capacity(1000)
    }

    /// A fresh table of `capacity` never-occupied slots.
    pub fn new_with_capacity(capacity: usize) -> (m: OAMap)
        requires
            1 <= capacity <= K_CAP_LIMIT,
        ensures
            m.wf(),
            m@ =~= Map::<Seq<char>, Seq<char>>::empty(),
            m.spec_len() == 0,
            m.capacity == capacity,
    {
        let mut arr: Vec<Entry> = Vec::new();
        let mut i: usize = 0;
        while i < capacity
            invariant
                i <= capacity,
                arr@.len() == i,
                forall|j: int|
                    0 <= j < i ==> !(#[trigger] arr@[j]).is_live() && arr@[j].is_free()
                        && arr@[j].inv(),
            decreases capacity - i,
        {
            arr.push(Entry::new());
            i = i + 1;
        }
        proof {
            lemma_empty(arr@);
        }
        OAMap { arr, entry_count: 0, capacity, cap_ratio: 0 }
    }

    /// The home slot of `key` in a table of `arr_len` slots.
    pub fn find_address(&self, key: &String, arr_len: usize) -> (a: usize)
        requires
            1 <= arr_len <= u32::MAX,
        ensures
            a == home_slot(key@, arr_len as int),
            a < arr_len,
    {
        let hash = key.hash();
        let address = hash % (arr_len as u32);
        address as usize
    }

    /// Number of live entries.
    pub fn len(&self) -> (n: usize)
        ensures
            n == self.spec_len(),
    {
        self.entry_count
    }

    /// Number of slots.
    pub fn table_capacity(&self) -> (c: usize)
        ensures
            c == self.capacity,
    {
        self.capacity
    }

    /// Probe for `key` from its home slot: the index of its live slot, or
    /// `None` after the first never-occupied slot or a full cycle.
    fn find_slot(&self, key: &String) -> (r: Option<usize>)
        requires
            self.wf(),
        ensures
            match r {
                Some(pos) => {
                    &&& pos < self.spec_cap()
                    &&& self.arr@[pos as int].is_live()
                    &&& self.arr@[pos as int].skey() == key@
                    &&& self@.contains_key(key@)
                    &&& self@[key@] == self.arr@[pos as int].sval()
                },
                None => !self@.contains_key(key@),
            },
    {
        let cap = self.arr.len();
        let h = self.find_address(key, cap);
        let mut i: usize = 0;
        while i < cap
            invariant
                self.wf(),
                cap == self.arr@.len(),
                h == home_slot(key@, cap as int),
                h < cap,
                i <= cap,
                forall|j: int|
                    0 <= j < cap && probe_dist(cap as int, h as int, j) < i ==> !(
                    #[trigger] self.arr@[j]).is_free() && !(self.arr@[j].is_live()
                        && self.arr@[j].skey() == key@),
            decreases cap - i,
        {
            let pos = if h + i < cap {
                h + i
            } else {
                h + i - cap
            };
            proof {
                assert(probe_dist(cap as int, h as int, pos as int) == i);
            }
            let e = &self.arr[pos];
            match &e.key {
                None => {
                    proof {
                        self.lemma_probe_miss(key@, h as int, i as int, pos as int);
                    }
                    return None;
                },
                Some(k) => {
                    if !e.empty && *k == *key {
                        proof {
                            lemma_view_value(self.arr@, pos as int);
                        }
                        return Some(pos);
                    }
                },
            }
            i = i + 1;
        }
        proof {
            self.lemma_probe_exhausted(key@, h as int);
        }
        None
    }

    /// Look `key` up: the value bound to it, if any.  Probes from the
    /// key's home slot, skipping tombstones and non-matching entries, and
    /// gives up at the first never-occupied slot or after a full cycle.
    pub fn get(&self, key: String) -> (r: Option<String>)
        requires
            self.wf(),
        ensures
            r is Some <==> self@.contains_key(key@),
            r is Some ==> r.unwrap()@ == self@[key@],
    {
        match self.find_slot(&key) {
            None => None,
            Some(pos) => {
                let e = &self.arr[pos];
                if let Some(v) = &e.value {
                    Some(v.clone())
                } else {
                    proof {
                        assert(false);
                    }
                    None
                }
            },
        }
    }

    /// `get(key).is_some()`, without handing the value out.
    pub fn contains_key(&self, key: String) -> (r: bool)
        requires
            self.wf(),
        ensures
            r == self@.contains_key(key@),
    {
        self.get(key).is_some()
    }

    /// Insert or overwrite without checking the load factor.  The caller
    /// guarantees room: the load factor is at most 50, so a non-live slot
    /// exists on every probe path.
    fn put_core(&mut self, key: String, value: String)
        requires
            old(self).wf(),
            old(self).entry_count < K_LEN_LIMIT,
            100 * old(self).entry_count <= 50 * old(self).capacity + old(self).capacity - 1,
        ensures
            final(self).wf(),
            final(self)@ =~= old(self)@.insert(key@, value@),
            final(self).spec_len() == old(self).spec_len() + (if old(self)@.contains_key(key@) {
                0int
            } else {
                1int
            }),
            final(self).capacity == old(self).capacity,
    {
        let ghost pre = *self;
        match self.find_slot(&key) {
            Some(pos) => {
                let ghost old_arr = self.arr@;
                let e = &mut self.arr[pos];
                e.populate(key, value);
                proof {
                    assert(self.arr@ =~= old_arr.update(pos as int, self.arr@[pos as int]));
                    lemma_update_overwrite(old_arr, pos as int, self.arr@[pos as int]);
                    self.lemma_same_shape_wf(pre);
                }
            },
            None => {
                let cap = self.arr.len();
                let h = self.find_address(&key, cap);
                let mut j: usize = 0;
                while j < cap
                    invariant
                        *self == pre,
                        pre == *old(self),
                        self.wf(),
                        !self@.contains_key(key@),
                        self.entry_count < K_LEN_LIMIT,
                        100 * self.entry_count <= 50 * self.capacity + self.capacity - 1,
                        cap == self.arr@.len(),
                        h == home_slot(key@, cap as int),
                        h < cap,
                        j <= cap,
                        forall|d: int|
                            0 <= d < cap && probe_dist(cap as int, h as int, d) < j ==> (
                            #[trigger] self.arr@[d]).is_live(),
                    decreases cap - j,
                {
                    let pos = if h + j < cap {
                        h + j
                    } else {
                        h + j - cap
                    };
                    proof {
                        assert(probe_dist(cap as int, h as int, pos as int) == j);
                    }
                    let slot_live = {
                        let e = &self.arr[pos];
                        !e.empty && e.key.is_some()
                    };
                    if !slot_live {
                        let ghost old_arr = self.arr@;
                        let e = &mut self.arr[pos];
                        e.populate(key, value);
                        proof {
                            assert(self.arr@ =~= old_arr.update(pos as int, self.arr@[pos as int]));
                            lemma_view_contains(old_arr, pre.arr@[pos as int].skey());
                            assert forall|t: int|
                                0 <= t < old_arr.len() && (#[trigger] old_arr[t]).is_live()
                                implies old_arr[t].skey() != key@ by {
                                lemma_view_contains(old_arr, old_arr[t].skey());
                            }
                            lemma_update_insert(old_arr, pos as int, self.arr@[pos as int]);
                        }
                        self.entry_count = self.entry_count + 1;
                        self.cap_ratio = Self::ratio(self.entry_count, self.capacity);
                        proof {
                            lemma_count_le(self.arr@);
                            self.lemma_insert_wf(pre, pos as int, h as int, j as int, key@);
                        }
                        return ;
                    }
                    j = j + 1;
                }
                proof {
                    assert forall|d: int| 0 <= d < cap implies (#[trigger] self.arr@[d]).is_live()
                        by {
                        assert(probe_dist(cap as int, h as int, d) < cap);
                    }
                    lemma_all_live_full(self.arr@);
                    assert(false);
                }
            },
        }
    }

    /// Re-establish well-formedness after inserting a fresh live entry
    /// for `k` at `pos`, reached at probe distance `j` from home `h` with
    /// every earlier slot on the path live.
    proof fn lemma_insert_wf(self, pre: OAMap, pos: int, h: int, j: int, k: Seq<char>)
        requires
            pre.wf(),
            0 <= pos < pre.spec_cap(),
            0 <= h < pre.spec_cap(),
            0 <= j < pre.spec_cap(),
            h == home_slot(k, pre.spec_cap()),
            probe_dist(pre.spec_cap(), h, pos) == j,
            forall|d: int|
                0 <= d < pre.spec_cap() && probe_dist(pre.spec_cap(), h, d) < j ==> (
                #[trigger] pre.arr@[d]).is_live(),
            forall|t: int|
                0 <= t < pre.spec_cap() && (#[trigger] pre.arr@[t]).is_live() ==> pre.arr@[t].skey()
                    != k,
            self.arr@ == pre.arr@.update(pos, self.arr@[pos]),
            self.arr@[pos].is_live(),
            self.arr@[pos].inv(),
            !self.arr@[pos].is_free(),
            self.arr@[pos].skey() == k,
            self.capacity == pre.capacity,
            self.entry_count == pre.entry_count + 1,
            self.entry_count == count_live(self.arr@),
            100 * pre.entry_count <= 50 * pre.capacity + pre.capacity - 1,
            self.cap_ratio == 100 * (self.entry_count as int) / (self.capacity as int),
        ensures
            self.wf(),
    {
        let cap = pre.spec_cap();
        assert forall|a: int, b: int|
            0 <= a < cap && 0 <= b < cap && a != b && #[trigger] self.arr@[a].is_live()
            && #[trigger] self.arr@[b].is_live() implies self.arr@[a].skey() != self.arr@[b].skey()
            by {
            if a != pos && b != pos {
                assert(pre.arr@[a].is_live() && pre.arr@[b].is_live());
            } else if a == pos {
                assert(pre.arr@[b].is_live() && pre.arr@[b].skey() != k);
            } else {
                assert(pre.arr@[a].is_live() && pre.arr@[a].skey() != k);
            }
        }
        assert forall|t: int, q: int|
            0 <= t < cap && 0 <= q < cap && #[trigger] self.arr@[t].is_live() && probe_dist(
                cap,
                home_slot(self.arr@[t].skey(), cap),
                q,
            ) < probe_dist(cap, home_slot(self.arr@[t].skey(), cap), t) implies !(
        #[trigger] self.arr@[q].is_free()) by {
            if t == pos {
                assert(home_slot(self.arr@[t].skey(), cap) == h);
                assert(probe_dist(cap, h, q) < j);
                assert(pre.arr@[q].is_live());
                if q != pos {
                    assert(self.arr@[q] == pre.arr@[q]);
                }
            } else {
                assert(pre.arr@[t].is_live());
                assert(pre.arr@[t].skey() == self.arr@[t].skey());
                if q == pos {
                    assert(!self.arr@[pos].is_free());
                } else {
                    assert(!pre.arr@[q].is_free());
                    assert(self.arr@[q] == pre.arr@[q]);
                }
            }
        }
        assert forall|i: int| 0 <= i < cap implies (#[trigger] self.arr@[i]).inv() by {
            if i != pos {
                assert(self.arr@[i] == pre.arr@[i]);
            }
        }
    }

    /// Insert `key` -> `value`, overwriting any previous binding.  When
    /// the load factor exceeds 50 at entry, the table first doubles its
    /// capacity and rehashes.
    pub fn put(&mut self, key: String, value: String)
        requires
            old(self).wf(),
            old(self).entry_count < K_LEN_LIMIT,
        ensures
            final(self).wf(),
            final(self)@ =~= old(self)@.insert(key@, value@),
            final(self).spec_len() == old(self).spec_len() + (if old(self)@.contains_key(key@) {
                0int
            } else {
                1int
            }),
            final(self).capacity == (if old(self).cap_ratio > 50 {
                2 * old(self).capacity
            } else {
                old(self).capacity as int
            }),
    {
        if self.cap_ratio > 50 {
            self.resize();
        }
        proof {
            let c = self.entry_count as int;
            let cap = self.capacity as int;
            vstd::arithmetic::div_mod::lemma_fundamental_div_mod(100 * c, cap);
            vstd::arithmetic::div_mod::lemma_mod_bound(100 * c, cap);
            vstd::arithmetic::mul::lemma_mul_inequality(100 * c / cap, 50, cap);
        }
        self.put_core(key, value);
    }

    /// Double the capacity and rehash every live entry into the fresh
    /// table.
    fn resize(&mut self)
        requires
            old(self).wf(),
            old(self).entry_count < K_LEN_LIMIT,
            old(self).cap_ratio > 50,
        ensures
            final(self).wf(),
            final(self)@ =~= old(self)@,
            final(self).spec_len() == old(self).spec_len(),
            final(self).capacity == 2 * old(self).capacity,
            final(self).cap_ratio <= 50,
            final(self).entry_count == old(self).entry_count,
    {
        proof {
            lemma_count_le(old(self).arr@);
            let c = old(self).entry_count as int;
            let cap = old(self).capacity as int;
            vstd::arithmetic::div_mod::lemma_fundamental_div_mod(100 * c, cap);
            vstd::arithmetic::div_mod::lemma_mod_bound(100 * c, cap);
            vstd::arithmetic::mul::lemma_mul_inequality(51, 100 * c / cap, cap);
        }
        let new_cap = self.capacity * 2;
        let mut m2 = OAMap::new_with_capacity(new_cap);
        let n = self.arr.len();
        let mut i: usize = 0;
        while i < n
            invariant
                *self == *old(self),
                self.wf(),
                self.entry_count < K_LEN_LIMIT,
                n == self.arr@.len(),
                i <= n,
                m2.wf(),
                m2.capacity == new_cap,
                new_cap == 2 * self.capacity,
                new_cap <= K_CAP_LIMIT,
                m2@ =~= slots_view(self.arr@.take(i as int)),
                m2.spec_len() == count_live(self.arr@.take(i as int)),
            decreases n - i,
        {
            let ghost prefix = self.arr@.take(i as int);
            proof {
                assert(self.arr@.take(i + 1).drop_last() =~= prefix);
                assert(self.arr@.take(i + 1).last() == self.arr@[i as int]);
                lemma_count_take_le(self.arr@, i as int);
                lemma_count_le(self.arr@);
            }
            let e = &self.arr[i];
            if !e.empty {
                if let Some(k) = &e.key {
                    if let Some(v) = &e.value {
                        proof {
                            lemma_view_contains(prefix, k@);
                            if exists|t: int|
                                0 <= t < prefix.len() && (#[trigger] prefix[t]).is_live()
                                    && prefix[t].skey() == k@ {
                                let t = choose|t: int|
                                    0 <= t < prefix.len() && (#[trigger] prefix[t]).is_live()
                                        && prefix[t].skey() == k@;
                                assert(self.arr@[t].is_live() && self.arr@[i as int].is_live());
                                assert(false);
                            }
                            lemma_count_take_le(self.arr@, i + 1);
                            assert(count_live(self.arr@.take(i + 1)) == count_live(prefix) + 1);
                        }
                        m2.put_core(k.clone(), v.clone());
                    }
                }
            }
            i = i + 1;
        }
        proof {
            assert(self.arr@.take(n as int) =~= self.arr@);
        }
        self.arr = m2.arr;
        self.entry_count = m2.entry_count;
        self.capacity = m2.capacity;
        self.cap_ratio = m2.cap_ratio;
        proof {
            vstd::arithmetic::div_mod::lemma_div_is_ordered(
                100 * (self.entry_count as int),
                50 * (self.capacity as int),
                self.capacity as int,
            );
            vstd::arithmetic::div_mod::lemma_div_multiples_vanish(50, self.capacity as int);
        }
    }

    /// Remove `key` if present: its slot becomes a tombstone that keeps
    /// the key, so probe paths through it stay intact.
    pub fn delete(&mut self, key: String)
        requires
            old(self).wf(),
        ensures
            final(self).wf(),
            final(self)@ =~= old(self)@.remove(key@),
            final(self).spec_len() == old(self).spec_len() - (if old(self)@.contains_key(key@) {
                1int
            } else {
                0int
            }),
            final(self).capacity == old(self).capacity,
            final(self).spec_cap() == old(self).spec_cap(),
    {
        let ghost pre = *self;
        match self.find_slot(&key) {
            None => {
                proof {
                    assert(old(self)@.remove(key@) =~= old(self)@);
                }
            },
            Some(pos) => {
                let ghost old_arr = self.arr@;
                let e = &mut self.arr[pos];
                e.empty = true;
                proof {
                    assert(self.arr@ =~= old_arr.update(pos as int, self.arr@[pos as int]));
                    lemma_update_delete(old_arr, pos as int, self.arr@[pos as int]);
                    lemma_count_le(old_arr);
                }
                self.entry_count = self.entry_count - 1;
                self.cap_ratio = Self::ratio(self.entry_count, self.capacity);
                proof {
                    self.lemma_same_shape_wf(pre);
                }
            },
        }
    }

    /// All live keys, in slot order.
    pub fn keys(&self) -> (r: Vec<String>)
        requires
            self.wf(),
        ensures
            r@.map_values(|s: String| s@) == self.key_seq(),
            r@.len() == self.spec_len(),
    {
        let mut out: Vec<String> = Vec::new();
        let n = self.arr.len();
        let mut i: usize = 0;
        while i < n
            invariant
                self.wf(),
                n == self.arr@.len(),
                i <= n,
                out@.map_values(|s: String| s@) == live_keys(self.arr@.take(i as int)),
            decreases n - i,
        {
            let ghost prefix = self.arr@.take(i as int);
            proof {
                assert(self.arr@.take(i + 1).drop_last() =~= prefix);
                assert(self.arr@.take(i + 1).last() == self.arr@[i as int]);
            }
            let e = &self.arr[i];
            if !e.empty {
                if let Some(k) = &e.key {
                    let ghost old_out = out@;
                    out.push(k.clone());
                    proof {
                        assert(out@.map_values(|s: String| s@) =~= old_out.map_values(
                            |s: String| s@,
                        ).push(k@));
                    }
                }
            }
            i = i + 1;
        }
        proof {
            assert(self.arr@.take(n as int) =~= self.arr@);
            lemma_live_keys_len(self.arr@);
        }
        out
    }

    /// The advertised key sequence is duplicate-free and holds exactly
    /// the keys of the table's mapping.
    pub proof fn lemma_key_seq(self)
        requires
            self.wf(),
        ensures
            self.key_seq().len() == self.spec_len(),
            self.key_seq().no_duplicates(),
            forall|k: Seq<char>| #[trigger] self.key_seq().contains(k) <==> self@.contains_key(k),
    {
        lemma_live_keys_len(self.arr@);
        lemma_live_keys_no_dup(self.arr@);
        assert forall|k: Seq<char>| true implies (#[trigger] self.key_seq().contains(k)
            <==> self@.contains_key(k)) by {
            lemma_live_keys_contains(self.arr@, k);
        }
    }

    /// Load factor as an integer percentage.
    fn ratio(count: usize, cap: usize) -> (r: usize)
        requires
            1 <= cap <= K_CAP_LIMIT,
            count <= cap,
        ensures
            r == 100 * (count as int) / (cap as int),
            r <= 100,
    {
        let r64: u64 = ((count as u64) * 100) / (cap as u64);
        proof {
            vstd::arithmetic::div_mod::lemma_div_is_ordered(
                100 * (count as int),
                100 * (cap as int),
                cap as int,
            );
            vstd::arithmetic::div_mod::lemma_div_multiples_vanish(100, cap as int);
        }
        r64 as usize
    }

    /// Re-establish well-formedness after an in-place change that keeps
    /// every slot's key, liveness and freeness except for deletions, with
    /// counters freshly recomputed.
    proof fn lemma_same_shape_wf(self, pre: OAMap)
        requires
            pre.wf(),
            self.arr@.len() == pre.arr@.len(),
            self.capacity == pre.capacity,
            self.entry_count == count_live(self.arr@),
            self.entry_count <= pre.entry_count,
            self.cap_ratio == 100 * (self.entry_count as int) / (self.capacity as int),
            forall|i: int|
                0 <= i < self.arr@.len() ==> ((#[trigger] self.arr@[i]).is_free()
                    == pre.arr@[i].is_free() && (self.arr@[i].is_live() ==> pre.arr@[i].is_live()
                    && self.arr@[i].skey() == pre.arr@[i].skey()) && self.arr@[i].inv()),
        ensures
            self.wf(),
    {
        assert forall|i: int, j: int|
            0 <= i < self.spec_cap() && 0 <= j < self.spec_cap() && i != j
            && #[trigger] self.arr@[i].is_live() && #[trigger] self.arr@[j].is_live()
            implies self.arr@[i].skey() != self.arr@[j].skey() by {
            assert(pre.arr@[i].is_live() && pre.arr@[j].is_live());
        }
        assert forall|i: int, j: int|
            0 <= i < self.spec_cap() && 0 <= j < self.spec_cap()
            && #[trigger] self.arr@[i].is_live() && probe_dist(
                self.spec_cap(),
                home_slot(self.arr@[i].skey(), self.spec_cap()),
                j,
            ) < probe_dist(
                self.spec_cap(),
                home_slot(self.arr@[i].skey(), self.spec_cap()),
                i,
            ) implies !(#[trigger] self.arr@[j].is_free()) by {
            assert(pre.arr@[i].is_live());
            assert(!pre.arr@[j].is_free());
        }
    }

    /// A probe that found a never-occupied slot at distance `i`, having
    /// passed no match, proves the key absent.
    proof fn lemma_probe_miss(self, k: Seq<char>, h: int, i: int, pos: int)
        requires
            self.wf(),
            h == home_slot(k, self.spec_cap()),
            0 <= h < self.spec_cap(),
            0 <= i < self.spec_cap(),
            0 <= pos < self.spec_cap(),
            probe_dist(self.spec_cap(), h, pos) == i,
            self.arr@[pos].is_free(),
            forall|j: int|
                0 <= j < self.spec_cap() && probe_dist(self.spec_cap(), h, j) < i ==> !(
                #[trigger] self.arr@[j]).is_free() && !(self.arr@[j].is_live() && self.arr@[j].skey()
                    == k),
        ensures
            !self@.contains_key(k),
    {
        lemma_view_contains(self.arr@, k);
        if self@.contains_key(k) {
            let t = choose|t: int|
                0 <= t < self.arr@.len() && (#[trigger] self.arr@[t]).is_live()
                    && self.arr@[t].skey() == k;
            let dt = probe_dist(self.spec_cap(), h, t);
            assert(home_slot(self.arr@[t].skey(), self.spec_cap()) == h);
            if dt < i {
                assert(!(self.arr@[t].is_live() && self.arr@[t].skey() == k));
            } else if dt == i {
                assert(t == pos);
                assert(self.arr@[pos].is_live() && self.arr@[pos].is_free());
                assert(false);
            } else {
                assert(self.arr@[t].is_live() && probe_dist(
                    self.spec_cap(),
                    home_slot(self.arr@[t].skey(), self.spec_cap()),
                    pos,
                ) < probe_dist(
                    self.spec_cap(),
                    home_slot(self.arr@[t].skey(), self.spec_cap()),
                    t,
                ));
                assert(!self.arr@[pos].is_free());
                assert(false);
            }
        }
    }

    /// A probe that walked the whole table without a match proves the key
    /// absent.
    proof fn lemma_probe_exhausted(self, k: Seq<char>, h: int)
        requires
            self.wf(),
            0 <= h < self.spec_cap(),
            forall|j: int|
                0 <= j < self.spec_cap() && probe_dist(self.spec_cap(), h, j) < self.spec_cap()
                    ==> !(#[trigger] self.arr@[j]).is_free() && !(self.arr@[j].is_live()
                    && self.arr@[j].skey() == k),
        ensures
            !self@.contains_key(k),
    {
        lemma_view_contains(self.arr@, k);
        if self@.contains_key(k) {
            let t = choose|t: int|
                0 <= t < self.arr@.len() && (#[trigger] self.arr@[t]).is_live()
                    && self.arr@[t].skey() == k;
            assert(probe_dist(self.spec_cap(), h, t) < self.spec_cap());
            assert(false);
        }
    }
}

/// Every well-formed table keeps its integer load factor in the band
/// just above one half: the creep a stored ratio of exactly 50 allows.
pub proof fn lemma_load_factor_bound(t: OAMap)
    requires
        t.wf(),
    ensures
        100 * t.spec_len() <= 51 * t.capacity + 99,
{
}

/// A `put` from a state with room - counting the doubling a triggered
/// resize provides - leaves the load factor at or under 50 percent.
/// The hypotheses restate what `put` ensures of the state it produces.
pub proof fn lemma_put_load_factor(pre: OAMap, post: OAMap, k: Seq<char>, v: Seq<char>)
    requires
        pre.wf(),
        post.wf(),
        post@ == pre@.insert(k, v),
        post.spec_len() == pre.spec_len() + (if pre@.contains_key(k) {
            0int
        } else {
            1int
        }),
        post.capacity == (if pre.cap_ratio > 50 {
            2 * pre.capacity
        } else {
            pre.capacity as int
        }),
        2 * (pre.spec_len() + 1) <= (if pre.cap_ratio > 50 {
            2 * pre.capacity
        } else {
            pre.capacity as int
        }),
    ensures
        100 * post.spec_len() <= 50 * post.capacity,
{
}

proof fn lemma_count_take_le(s: Seq<Entry>, i: int)
    requires
        0 <= i <= s.len(),
    ensures
        count_live(s.take(i)) <= count_live(s),
    decreases s.len(),
{
    if i == s.len() {
        assert(s.take(i) =~= s);
    } else if s.len() > 0 {
        let dl = s.drop_last();
        assert(s.take(i) =~= dl.take(i));
        lemma_count_take_le(dl, i);
    }
}

proof fn lemma_empty(s: Seq<Entry>)
    requires
        forall|j: int| 0 <= j < s.len() ==> !(#[trigger] s[j]).is_live(),
    ensures
        count_live(s) == 0,
        slots_view(s) =~= Map::<Seq<char>, Seq<char>>::empty(),
        live_keys(s) == Seq::<Seq<char>>::empty(),
    decreases s.len(),
{
    if s.len() > 0 {
        let dl = s.drop_last();
        assert(forall|j: int| 0 <= j < dl.len() ==> (#[trigger] dl[j]) == s[j]);
        lemma_empty(dl);
    }
}

} // verus!
