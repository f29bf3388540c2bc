//! Hash collections: hashbrown's tables with the Fx hasher, and indexmap's
//! ordered set.
//!
//! The verifier cannot look inside a hashbrown table, so each collection
//! here is a struct with a hidden field, its contents are named by an
//! uninterpreted function, and each hashbrown call is a small private
//! function whose contract, stated over that name, is trusted rather than
//! proved. The public methods are verified against those contracts. The
//! ordered set is indexmap's own type, with its calls behind functions of
//! the same kind.
use vstd::prelude::*;

verus! {

/// A set of 32-bit ids (node or edge indices).
#[verifier::external_body]
pub struct IdSet {
    inner: hashbrown::HashSet<u32, rustc_hash::FxBuildHasher>,
}

/// The ids that the set holds.
pub uninterp spec fn id_set_items(s: IdSet) -> Set<u32>;

impl View for IdSet {
    type V = Set<u32>;

    open spec fn view(&self) -> Set<u32> {
        id_set_items(*self)
    }
}

/// `hashbrown::HashSet::default`: an empty set.
#[verifier::external_body]
fn id_set_default() -> (s: IdSet)
    ensures
        id_set_items(s) == Set::<u32>::empty(),
{
    IdSet { inner: hashbrown::HashSet::default() }
}

/// `hashbrown::HashSet::insert`: adds `x`; true when it was not there yet.
#[verifier::external_body]
fn id_set_insert(s: &mut IdSet, x: u32) -> (fresh: bool)
    ensures
        id_set_items(*final(s)) == id_set_items(*old(s)).insert(x),
        fresh == !id_set_items(*old(s)).contains(x),
{
    s.inner.insert(x)
}

/// `hashbrown::HashSet::remove`: takes `x` out; true when it was there.
#[verifier::external_body]
fn id_set_remove(s: &mut IdSet, x: u32) -> (present: bool)
    ensures
        id_set_items(*final(s)) == id_set_items(*old(s)).remove(x),
        present == id_set_items(*old(s)).contains(x),
{
    s.inner.remove(&x)
}

/// `hashbrown::HashSet::contains`.
#[verifier::external_body]
fn id_set_contains(s: &IdSet, x: u32) -> (r: bool)
    ensures
        r == id_set_items(*s).contains(x),
{
    s.inner.contains(&x)
}

/// `hashbrown::HashSet::len`: the number of ids held.
#[verifier::external_body]
fn id_set_len(s: &IdSet) -> (n: usize)
    ensures
        n == id_set_items(*s).len(),
{
    s.inner.len()
}

/// `hashbrown::HashSet::iter`: every id of the set exactly once, in an order
/// that the table decides.
#[verifier::external_body]
fn id_set_iter(s: &IdSet) -> (r: Vec<u32>)
    ensures
        r@.no_duplicates(),
        r@.to_set() == id_set_items(*s),
{
    s.inner.iter().copied().collect()
}

/// `hashbrown::HashSet::drain`: empties the set and hands out every id it
/// held exactly once, in an order that the table decides.
#[verifier::external_body]
fn id_set_drain(s: &mut IdSet) -> (r: Vec<u32>)
    ensures
        r@.no_duplicates(),
        r@.to_set() == id_set_items(*old(s)),
        id_set_items(*final(s)) == Set::<u32>::empty(),
{
    s.inner.drain().collect()
}

impl IdSet {
    /// An empty set.
    pub fn new() -> (s: Self)
        ensures
            s@ == Set::<u32>::empty(),
    {
        id_set_default()
    }

    /// Adds `x`; returns whether it was new.
    pub fn insert(&mut self, x: u32) -> (fresh: bool)
        ensures
            final(self)@ == old(self)@.insert(x),
            fresh == !old(self)@.contains(x),
    {
        id_set_insert(self, x)
    }

    /// Removes `x`; returns whether it was present.
    pub fn remove(&mut self, x: u32) -> (present: bool)
        ensures
            final(self)@ == old(self)@.remove(x),
            present == old(self)@.contains(x),
    {
        id_set_remove(self, x)
    }

    /// Whether the set holds `x`.
    pub fn contains(&self, x: u32) -> (r: bool)
        ensures
            r == self@.contains(x),
    {
        id_set_contains(self, x)
    }

    /// How many ids the set holds.
    pub fn len(&self) -> (n: usize)
        ensures
            n == self@.len(),
    {
        id_set_len(self)
    }

    /// The ids of the set, each once, in no particular order.
    pub fn to_vec(&self) -> (r: Vec<u32>)
        ensures
            r@.no_duplicates(),
            r@.to_set() == self@,
    {
        id_set_iter(self)
    }

    /// Empties the set and returns what it held, each id once, in no
    /// particular order.
    pub fn drain(&mut self) -> (r: Vec<u32>)
        ensures
            r@.no_duplicates(),
            r@.to_set() == old(self)@,
            final(self)@ == Set::<u32>::empty(),
    {
        id_set_drain(self)
    }
}

/// A map from paths to 32-bit node indices.
#[verifier::external_body]
pub struct PathIndex {
    inner: hashbrown::HashMap<String, u32, rustc_hash::FxBuildHasher>,
}

/// The entries that the map holds, each path as its sequence of characters.
pub uninterp spec fn path_index_items(m: PathIndex) -> Map<Seq<char>, u32>;

impl View for PathIndex {
    type V = Map<Seq<char>, u32>;

    open spec fn view(&self) -> Map<Seq<char>, u32> {
        path_index_items(*self)
    }
}

/// The map without entries.
pub open spec fn empty_path_index() -> Map<Seq<char>, u32> {
    Map::empty()
}

/// `hashbrown::HashMap::default`: an empty map.
#[verifier::external_body]
fn path_index_default() -> (m: PathIndex)
    ensures
        path_index_items(m) == empty_path_index(),
{
    PathIndex { inner: hashbrown::HashMap::default() }
}

/// `hashbrown::HashMap::get`: the index stored for `path`, if there is one.
/// Strings are equal as keys exactly when their characters are.
#[verifier::external_body]
fn path_index_get(m: &PathIndex, path: &str) -> (r: Option<u32>)
    ensures
        r == (if path_index_items(*m).contains_key(path@) {
            Some(path_index_items(*m)[path@])
        } else {
            None
        }),
{
    m.inner.get(path).copied()
}

/// `hashbrown::HashMap::insert`: stores `index` for `path` and returns what
/// was stored for it before.
#[verifier::external_body]
fn path_index_insert(m: &mut PathIndex, path: String, index: u32) -> (r: Option<u32>)
    ensures
        path_index_items(*final(m)) == path_index_items(*old(m)).insert(path@, index),
        r == (if path_index_items(*old(m)).contains_key(path@) {
            Some(path_index_items(*old(m))[path@])
        } else {
            None
        }),
{
    m.inner.insert(path, index)
}

/// `hashbrown::HashMap::len`: the number of entries.
#[verifier::external_body]
fn path_index_len(m: &PathIndex) -> (n: usize)
    ensures
        n == path_index_items(*m).dom().len(),
{
    m.inner.len()
}

/// `hashbrown::HashMap::iter`: hands out every entry of the map, in an order
/// that the table decides. Each pair handed out is an entry, and every path
/// of the map is among the pairs.
#[verifier::external_body]
fn path_index_iter(m: &PathIndex) -> (r: Vec<(String, u32)>)
    ensures
        forall|k: int|
            0 <= k < r@.len() ==> path_index_items(*m).contains_pair((#[trigger] r@[k]).0@, r@[k].1),
        forall|p: Seq<char>| #[trigger]
            path_index_items(*m).contains_key(p) ==> exists|k: int|
                0 <= k < r@.len() && (#[trigger] r@[k]).0@ == p,
{
    m.inner.iter().map(|(path, index)| (path.clone(), *index)).collect()
}

impl PathIndex {
    /// An empty map.
    pub fn new() -> (m: Self)
        ensures
            m@ == Map::<Seq<char>, u32>::empty(),
    {
        path_index_default()
    }

    /// The index stored for `path`, if there is one.
    pub fn get(&self, path: &str) -> (r: Option<u32>)
        ensures
            r == (if self@.contains_key(path@) {
                Some(self@[path@])
            } else {
                None
            }),
    {
        path_index_get(self, path)
    }

    /// Stores `index` for `path`; returns what was stored for it before.
    pub fn insert(&mut self, path: String, index: u32) -> (r: Option<u32>)
        ensures
            final(self)@ == old(self)@.insert(path@, index),
            r == (if old(self)@.contains_key(path@) {
                Some(old(self)@[path@])
            } else {
                None
            }),
    {
        path_index_insert(self, path, index)
    }

    /// How many paths the map holds.
    pub fn len(&self) -> (n: usize)
        ensures
            n == self@.dom().len(),
    {
        path_index_len(self)
    }

    /// The entries of the map, in no particular order: each pair is an
    /// entry, and every path of the map is among the pairs.
    pub fn entries(&self) -> (r: Vec<(String, u32)>)
        ensures
            forall|k: int| 0 <= k < r@.len() ==> self@.contains_pair((#[trigger] r@[k]).0@, r@[k].1),
            forall|p: Seq<char>| #[trigger]
                self@.contains_key(p) ==> exists|k: int|
                    0 <= k < r@.len() && (#[trigger] r@[k]).0@ == p,
    {
        path_index_iter(self)
    }
}

/// A map from 32-bit ids to 32-bit ids.
#[verifier::external_body]
pub struct IdMap {
    inner: hashbrown::HashMap<u32, u32, rustc_hash::FxBuildHasher>,
}

/// The entries that the map holds.
pub uninterp spec fn id_map_items(m: IdMap) -> Map<u32, u32>;

impl View for IdMap {
    type V = Map<u32, u32>;

    open spec fn view(&self) -> Map<u32, u32> {
        id_map_items(*self)
    }
}

/// The map from ids to ids without entries.
pub open spec fn empty_id_map() -> Map<u32, u32> {
    Map::empty()
}

/// `hashbrown::HashMap::default`: an empty map.
#[verifier::external_body]
fn id_map_default() -> (m: IdMap)
    ensures
        id_map_items(m) == empty_id_map(),
{
    IdMap { inner: hashbrown::HashMap::default() }
}

/// `hashbrown::HashMap::get`: the value stored for `key`, if there is one.
#[verifier::external_body]
fn id_map_get(m: &IdMap, key: u32) -> (r: Option<u32>)
    ensures
        r == (if id_map_items(*m).contains_key(key) {
            Some(id_map_items(*m)[key])
        } else {
            None
        }),
{
    m.inner.get(&key).copied()
}

/// `hashbrown::HashMap::insert`: stores `value` for `key` and returns what
/// was stored for it before.
#[verifier::external_body]
fn id_map_insert(m: &mut IdMap, key: u32, value: u32) -> (r: Option<u32>)
    ensures
        id_map_items(*final(m)) == id_map_items(*old(m)).insert(key, value),
        r == (if id_map_items(*old(m)).contains_key(key) {
            Some(id_map_items(*old(m))[key])
        } else {
            None
        }),
{
    m.inner.insert(key, value)
}

impl IdMap {
    /// An empty map.
    pub fn new() -> (m: Self)
        ensures
            m@ == empty_id_map(),
    {
        id_map_default()
    }

    /// The value stored for `key`, if there is one.
    pub fn get(&self, key: u32) -> (r: Option<u32>)
        ensures
            r == (if self@.contains_key(key) {
                Some(self@[key])
            } else {
                None
            }),
    {
        id_map_get(self, key)
    }

    /// Stores `value` for `key`; returns what was stored for it before.
    pub fn insert(&mut self, key: u32, value: u32) -> (r: Option<u32>)
        ensures
            final(self)@ == old(self)@.insert(key, value),
            r == (if old(self)@.contains_key(key) {
                Some(old(self)@[key])
            } else {
                None
            }),
    {
        id_map_insert(self, key, value)
    }
}

/// For each id, a set of ids.
#[verifier::external_body]
pub struct BlockMap {
    inner: hashbrown::HashMap<u32, IdSet, rustc_hash::FxBuildHasher>,
}

/// The entries that the map holds, each set by the ids in it.
pub uninterp spec fn block_map_items(m: BlockMap) -> Map<u32, Set<u32>>;

impl View for BlockMap {
    type V = Map<u32, Set<u32>>;

    open spec fn view(&self) -> Map<u32, Set<u32>> {
        block_map_items(*self)
    }
}

/// The map from ids to sets without entries.
pub open spec fn empty_block_map() -> Map<u32, Set<u32>> {
    Map::empty()
}

/// `hashbrown::HashMap::default`: an empty map.
#[verifier::external_body]
fn block_map_default() -> (m: BlockMap)
    ensures
        block_map_items(m) == empty_block_map(),
{
    BlockMap { inner: hashbrown::HashMap::default() }
}

/// `hashbrown::HashMap::get_mut`: the set stored for `key`, if there is one,
/// to be changed in place. When the borrow ends the map holds under `key`
/// what the set then holds, and is otherwise as before.
#[verifier::external_body]
fn block_map_get_mut(m: &mut BlockMap, key: u32) -> (r: Option<&mut IdSet>)
    ensures
        match r {
            Some(set) => block_map_items(*old(m)).contains_key(key) && id_set_items(*set)
                == block_map_items(*old(m))[key] && block_map_items(*final(m))
                == block_map_items(*old(m)).insert(key, id_set_items(*final(set))),
            None => !block_map_items(*old(m)).contains_key(key) && block_map_items(*final(m))
                == block_map_items(*old(m)),
        },
{
    m.inner.get_mut(&key)
}

/// `hashbrown::HashMap::insert`: stores `set` for `key`, in place of any set
/// that was stored for it.
#[verifier::external_body]
fn block_map_insert(m: &mut BlockMap, key: u32, set: IdSet)
    ensures
        block_map_items(*final(m)) == block_map_items(*old(m)).insert(key, id_set_items(set)),
{
    m.inner.insert(key, set);
}

impl BlockMap {
    /// An empty map.
    pub fn new() -> (m: Self)
        ensures
            m@ == empty_block_map(),
    {
        block_map_default()
    }

    /// The set stored for `key`, if there is one, to be changed in place.
    pub fn get_mut(&mut self, key: u32) -> (r: Option<&mut IdSet>)
        ensures
            match r {
                Some(set) => old(self)@.contains_key(key) && set@ == old(self)@[key] && final(self)@ == old(self)@.insert(key, final(set)@),
                None => !old(self)@.contains_key(key) && final(self)@ == old(self)@,
            },
    {
        block_map_get_mut(self, key)
    }

    /// Stores `set` for `key`, in place of any set that was stored for it.
    pub fn insert(&mut self, key: u32, set: IdSet)
        ensures
            final(self)@ == old(self)@.insert(key, set@),
    {
        block_map_insert(self, key, set)
    }
}

/// A set of 32-bit ids that keeps the order in which they were inserted.
pub type OrderedSet = indexmap::IndexSet<u32, ahash::RandomState>;

/// Makes indexmap's `IndexSet` known to the verifier, as a type of which
/// nothing is known but what the functions below say.
#[verifier::external_type_specification]
#[verifier::external_body]
#[verifier::reject_recursive_types(T)]
#[verifier::reject_recursive_types(S)]
pub struct ExIndexSet<T, S>(indexmap::IndexSet<T, S>);

/// Makes ahash's hasher state known to the verifier.
#[verifier::external_type_specification]
#[verifier::external_body]
pub struct ExRandomState(ahash::RandomState);

/// The ids that an ordered set holds, in the order they were inserted; none
/// occurs twice.
pub uninterp spec fn ordered_set_items(s: indexmap::IndexSet<u32, ahash::RandomState>) -> Seq<u32>;

/// `indexmap::IndexSet::with_hasher` with a default `ahash::RandomState`: an
/// empty set. The hasher's seeds have no part in the order of the items.
#[verifier::external_body]
pub(crate) fn ordered_set_new() -> (s: OrderedSet)
    ensures
        ordered_set_items(s) == Seq::<u32>::empty(),
{
    indexmap::IndexSet::with_hasher(ahash::RandomState::default())
}

/// `indexmap::IndexSet::insert`: appends `x` unless the set holds it, in
/// which case nothing changes; true when it was appended.
#[verifier::external_body]
pub(crate) fn ordered_set_insert(s: &mut OrderedSet, x: u32) -> (fresh: bool)
    ensures
        fresh == !ordered_set_items(*old(s)).contains(x),
        ordered_set_items(*final(s)) == (if ordered_set_items(*old(s)).contains(x) {
            ordered_set_items(*old(s))
        } else {
            ordered_set_items(*old(s)).push(x)
        }),
{
    s.insert(x)
}

/// `indexmap::IndexSet::pop`: removes the item inserted last and returns it;
/// `None` when the set is empty.
#[verifier::external_body]
pub(crate) fn ordered_set_pop(s: &mut OrderedSet) -> (r: Option<u32>)
    ensures
        r == (if ordered_set_items(*old(s)).len() > 0 {
            Some(ordered_set_items(*old(s)).last())
        } else {
            None
        }),
        ordered_set_items(*final(s)) == (if ordered_set_items(*old(s)).len() > 0 {
            ordered_set_items(*old(s)).drop_last()
        } else {
            ordered_set_items(*old(s))
        }),
{
    s.pop()
}

/// `indexmap::IndexSet::is_empty`.
#[verifier::external_body]
pub(crate) fn ordered_set_is_empty(s: &OrderedSet) -> (r: bool)
    ensures
        r == (ordered_set_items(*s).len() == 0),
{
    s.is_empty()
}

} // verus!
