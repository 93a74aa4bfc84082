//! A cache of icon lookups, keyed by theme, icon name, size and scale.
use vstd::prelude::*;
use vstd::string::StringSliceAdditionalSpecFns;
use vstd::std_specs::cmp::PartialEqSpecImpl;
use crate::bytes::bytes_eq;

verus! {

/// What the cache knows of an icon, as values.
pub enum EntryState {
    NotFound,
    Found(Seq<u8>),
    Unknown,
}

/// What the cache knows of an icon.
#[derive(Debug, Clone)]
pub enum CacheEntry {
    /// It was looked for and not found: no lookup is needed.
    NotFound,
    /// It was found at this path (its bytes, as the operating system holds them).
    Found(Vec<u8>),
    /// It was not looked for yet: a lookup is needed.
    Unknown,
}

impl View for CacheEntry {
    type V = EntryState;

    open spec fn view(&self) -> EntryState {
        match self {
            CacheEntry::NotFound => EntryState::NotFound,
            CacheEntry::Found(p) => EntryState::Found(p@),
            CacheEntry::Unknown => EntryState::Unknown,
        }
    }
}

impl PartialEq for CacheEntry {
    fn eq(&self, other: &Self) -> (r: bool) {
        match (self, other) {
            (CacheEntry::NotFound, CacheEntry::NotFound) => true,
            (CacheEntry::Found(a), CacheEntry::Found(b)) => bytes_eq(a.as_slice(), b.as_slice()),
            (CacheEntry::Unknown, CacheEntry::Unknown) => true,
            _ => false,
        }
    }
}

impl PartialEqSpecImpl for CacheEntry {
    open spec fn obeys_eq_spec() -> bool {
        true
    }

    open spec fn eq_spec(&self, other: &CacheEntry) -> bool {
        self@ == other@
    }
}

/// The key of a cache entry: theme, icon name, size, scale.
pub type CacheKey = (Seq<char>, Seq<char>, u16, u16);

/// What a map of cache entries answers for `key`: its entry, or `Unknown`.
pub open spec fn cache_lookup(m: Map<CacheKey, EntryState>, key: CacheKey) -> EntryState {
    if m.contains_key(key) {
        m[key]
    } else {
        EntryState::Unknown
    }
}

/// What an insertion of `icon_path` stores: `Found` with the path, or
/// `NotFound` where there is none.
pub open spec fn stored_entry(icon_path: Option<Seq<u8>>) -> EntryState {
    match icon_path {
        Some(p) => EntryState::Found(p),
        None => EntryState::NotFound,
    }
}

/// A cache of icon lookups.
///
/// The entries are held in two vectors, the keys and, at the same positions,
/// their entries, searched in order. A `BTreeMap` keyed by the theme and
/// icon names, as a nested map of such would be, has a specification in vstd
/// only for keys whose ordering Verus knows, and `String` has none; with the
/// vectors every lookup and update is proved.
pub struct Cache {
    keys: Vec<(String, String, u16, u16)>,
    entries: Vec<CacheEntry>,
}

/// The key of a stored record, as values.
pub open spec fn key_view(k: (String, String, u16, u16)) -> CacheKey {
    (k.0@, k.1@, k.2, k.3)
}

impl View for Cache {
    type V = Map<CacheKey, EntryState>;

    closed spec fn view(&self) -> Map<CacheKey, EntryState> {
        Cache::map_of(self.keys@, self.entries@)
    }
}

/// Whether `a` and `b` are the same string.
fn str_eq(a: &str, b: &str) -> (r: bool)
    ensures
        r == (a@ == b@),
{
    let r = bytes_eq(a.as_bytes(), b.as_bytes());
    proof {
        vstd::utf8::encode_utf8_decode_utf8(a@);
        vstd::utf8::encode_utf8_decode_utf8(b@);
    }
    r
}

impl Cache {
    /// The map that `keys` and, at the same positions, `entries` hold.
    closed spec fn map_of(keys: Seq<(String, String, u16, u16)>, entries: Seq<CacheEntry>) -> Map<
        CacheKey,
        EntryState,
    > {
        Map::new(
            |k: CacheKey| exists|i: int| 0 <= i < keys.len() && key_view(keys[i]) == k,
            |k: CacheKey| entries[choose|i: int| 0 <= i < keys.len() && key_view(keys[i]) == k]@,
        )
    }

    /// Each key is stored once, with one entry.
    #[verifier::type_invariant]
    spec fn wf(&self) -> bool {
        &&& self.keys@.len() == self.entries@.len()
        &&& forall|i: int, j: int|
            0 <= i < j < self.keys@.len() ==> key_view(self.keys@[i]) != key_view(
                self.keys@[j],
            )
    }

    /// The position of `key` among the stored keys.
    fn position_of(&self, theme: &str, size: u16, scale: u16, icon_name: &str) -> (r: Option<usize>)
        requires
            self.wf(),
        ensures
            r matches Some(i) ==> i < self.keys@.len() && key_view(self.keys@[i as int]) == (
                theme@,
                icon_name@,
                size,
                scale,
            ),
            r is None ==> forall|i: int|
                0 <= i < self.keys@.len() ==> key_view(self.keys@[i]) != (
                    theme@,
                    icon_name@,
                    size,
                    scale,
                ),
    {
        let mut i: usize = 0;
        while i < self.keys.len()
            invariant
                i <= self.keys@.len(),
                forall|j: int|
                    0 <= j < i ==> key_view(self.keys@[j]) != (theme@, icon_name@, size, scale),
            decreases self.keys@.len() - i,
        {
            let k = &self.keys[i];
            if k.2 == size && k.3 == scale && str_eq(k.0.as_str(), theme) && str_eq(
                k.1.as_str(),
                icon_name,
            ) {
                return Some(i);
            }
            i = i + 1;
        }
        None
    }

    /// Records what a lookup of `icon_name` in `theme` at `size` and `scale`
    /// found: the path in `icon_path`, or that there is none.
    pub fn insert(
        &mut self,
        theme: &str,
        size: u16,
        scale: u16,
        icon_name: &str,
        icon_path: &Option<Vec<u8>>,
    )
        ensures
            final(self)@ == old(self)@.insert(
                (theme@, icon_name@, size, scale),
                stored_entry(
                    match icon_path {
                        Some(p) => Some(p@),
                        None => None,
                    },
                ),
            ),
    {
        proof {
            use_type_invariant(&*self);
        }
        let entry = match icon_path {
            Some(p) => CacheEntry::Found(vstd::slice::slice_to_vec(p.as_slice())),
            None => CacheEntry::NotFound,
        };
        let ghost key = (theme@, icon_name@, size, scale);
        let ghost old_map = self@;
        let ghost ev = entry@;
        let position = self.position_of(theme, size, scale, icon_name);
        let mut taken = Cache { keys: Vec::new(), entries: Vec::new() };
        std::mem::swap(self, &mut taken);
        proof {
            use_type_invariant(&taken);
        }
        let Cache { mut keys, mut entries } = taken;
        let ghost old_keys = keys@;
        let ghost old_entries = entries@;
        assert(old_map == Cache::map_of(old_keys, old_entries));
        match position {
            Some(i) => {
                entries.set(i, entry);
                assert(Cache::map_of(keys@, entries@) =~= old_map.insert(key, ev)) by {
                    assert forall|k: CacheKey| #[trigger] Cache::map_of(keys@, entries@).contains_key(
                        k,
                    ) implies Cache::map_of(keys@, entries@)[k] == old_map.insert(key, ev)[k] by {
                        let j = choose|j: int| 0 <= j < keys@.len() && key_view(keys@[j]) == k;
                        if k == key {
                            assert(j == i);
                        }
                    }
                }
            },
            None => {
                let n = keys.len();
                keys.push((String::from_str(theme), String::from_str(icon_name), size, scale));
                entries.push(entry);
                assert(key_view(keys@[n as int]) == key);
                assert(Cache::map_of(keys@, entries@) =~= old_map.insert(key, ev)) by {
                    assert forall|k: CacheKey| #[trigger] Cache::map_of(keys@, entries@).contains_key(
                        k,
                    ) implies Cache::map_of(keys@, entries@)[k] == old_map.insert(key, ev)[k] by {
                        let j = choose|j: int| 0 <= j < keys@.len() && key_view(keys@[j]) == k;
                        if k == key {
                            assert(j == n);
                        } else {
                            assert(j < n);
                            assert(keys@[j] == old_keys[j]);
                            assert(old_map.contains_key(k));
                            let j2 = choose|j: int|
                                0 <= j < old_keys.len() && key_view(old_keys[j]) == k;
                            assert(keys@[j2] == old_keys[j2]);
                            assert(j2 == j);
                        }
                    }
                    assert forall|k: CacheKey| #[trigger] old_map.insert(key, ev).contains_key(k)
                        implies Cache::map_of(keys@, entries@).contains_key(k) by {
                        if k == key {
                            assert(key_view(keys@[n as int]) == k);
                        } else {
                            let j = choose|j: int|
                                0 <= j < old_keys.len() && key_view(old_keys[j]) == k;
                            assert(keys@[j] == old_keys[j]);
                        }
                    }
                }
            },
        }
        *self = Cache { keys, entries };
    }

    /// What the cache knows of `icon_name` in `theme` at `size` and `scale`:
    /// the recorded entry, or `Unknown` where none was recorded.
    pub fn get(&self, theme: &str, size: u16, scale: u16, icon_name: &str) -> (r: CacheEntry)
        ensures
            r@ == cache_lookup(self@, (theme@, icon_name@, size, scale)),
    {
        proof {
            use_type_invariant(self);
        }
        let ghost key = (theme@, icon_name@, size, scale);
        match self.position_of(theme, size, scale, icon_name) {
            Some(i) => {
                let r = match &self.entries[i] {
                    CacheEntry::NotFound => CacheEntry::NotFound,
                    CacheEntry::Found(p) => CacheEntry::Found(vstd::slice::slice_to_vec(p.as_slice())),
                    CacheEntry::Unknown => CacheEntry::Unknown,
                };
                proof {
                    assert(self@.contains_key(key));
                    let j = choose|j: int|
                        0 <= j < self.keys@.len() && key_view(self.keys@[j]) == key;
                    assert(j == i);
                }
                r
            },
            None => {
                assert(!self@.contains_key(key));
                CacheEntry::Unknown
            },
        }
    }
}

impl Default for Cache {
    /// An empty cache.
    fn default() -> (r: Self)
        ensures
            r@ == Map::<CacheKey, EntryState>::empty(),
    {
        let r = Cache { keys: Vec::new(), entries: Vec::new() };
        assert(r@ =~= Map::<CacheKey, EntryState>::empty());
        r
    }
}

/// The entries after the insertions `inserts` (each a key and the path
/// found, if any), made in order on a cache holding `m`. Lookups change
/// nothing: `get` takes the cache by shared reference.
pub open spec fn after_inserts(
    m: Map<CacheKey, EntryState>,
    inserts: Seq<(CacheKey, Option<Seq<u8>>)>,
) -> Map<CacheKey, EntryState>
    decreases inserts.len(),
{
    if inserts.len() == 0 {
        m
    } else {
        after_inserts(m, inserts.drop_last()).insert(
            inserts.last().0,
            stored_entry(inserts.last().1),
        )
    }
}

/// What an insertion stored is what `get` answers for its key after any
/// number of later insertions under other keys.
pub proof fn law_insert_survives_other_keys(
    m: Map<CacheKey, EntryState>,
    key: CacheKey,
    icon_path: Option<Seq<u8>>,
    later: Seq<(CacheKey, Option<Seq<u8>>)>,
)
    requires
        forall|i: int| 0 <= i < later.len() ==> #[trigger] later[i].0 != key,
    ensures
        cache_lookup(after_inserts(m.insert(key, stored_entry(icon_path)), later), key)
            == stored_entry(icon_path),
    decreases later.len(),
{
    if later.len() > 0 {
        assert(later.last().0 != key);
        law_insert_survives_other_keys(m, key, icon_path, later.drop_last());
    }
}

/// A cache built by `default` and then insertions answers `Unknown` for a
/// key exactly when no insertion was made under that key.
pub proof fn law_unknown_iff_never_inserted(
    inserts: Seq<(CacheKey, Option<Seq<u8>>)>,
    key: CacheKey,
)
    ensures
        cache_lookup(after_inserts(Map::empty(), inserts), key) == EntryState::Unknown <==> forall|
            i: int,
        | 0 <= i < inserts.len() ==> #[trigger] inserts[i].0 != key,
    decreases inserts.len(),
{
    if inserts.len() > 0 {
        law_unknown_iff_never_inserted(inserts.drop_last(), key);
        let prev = inserts.drop_last();
        assert forall|i: int| 0 <= i < prev.len() implies #[trigger] prev[i] == inserts[i] by {}
        if inserts.last().0 == key {
            assert(inserts[inserts.len() - 1].0 == key);
        } else {
            assert forall|i: int| 0 <= i < prev.len() && #[trigger] prev[i].0 != key implies inserts[i].0
                != key by {}
            if forall|i: int| 0 <= i < prev.len() ==> #[trigger] prev[i].0 != key {
                assert forall|i: int| 0 <= i < inserts.len() implies #[trigger] inserts[i].0 != key by {
                    if i < prev.len() {
                        assert(prev[i].0 != key);
                    }
                }
            }
        }
    }
}

/// What `get` answers after an `insert` of the same key is what that insert
/// stored; every other key answers as before; an empty cache answers
/// `Unknown` for every key.
pub proof fn law_get_after_insert(
    m: Map<CacheKey, EntryState>,
    key: CacheKey,
    other: CacheKey,
    icon_path: Option<Seq<u8>>,
)
    ensures
        cache_lookup(m.insert(key, stored_entry(icon_path)), key) == stored_entry(icon_path),
        other != key ==> cache_lookup(m.insert(key, stored_entry(icon_path)), other)
            == cache_lookup(m, other),
        cache_lookup(Map::empty(), other) == EntryState::Unknown,
{
}

/// An insertion never records `Unknown`: after it, `get` answers for the key
/// that a lookup is not needed.
pub proof fn law_insert_is_known(icon_path: Option<Seq<u8>>)
    ensures
        stored_entry(icon_path) != EntryState::Unknown,
{
}

} // verus!
