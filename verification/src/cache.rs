use vstd::prelude::*;

verus! {

/// Memoized results keyed by one space id.
#[verifier::external_body]
pub struct SpaceIdMap {
    map: hashbrown::HashMap<usize, usize, foldhash::fast::RandomState>,
}

/// Memoized spaces keyed by an ordered pair of space ids.
#[verifier::external_body]
pub struct SpacePairMap {
    map: hashbrown::HashMap<(usize, usize), usize, foldhash::fast::RandomState>,
}

/// Memoized answers keyed by an ordered pair of space ids.
#[verifier::external_body]
pub struct SpacePairFlags {
    map: hashbrown::HashMap<(usize, usize), bool, foldhash::fast::RandomState>,
}

/// Memoized lists of space ids keyed by one space id.
#[verifier::external_body]
pub struct SpaceListMap {
    map: hashbrown::HashMap<usize, Vec<usize>, foldhash::fast::RandomState>,
}

/// The entries of a [`SpaceIdMap`].
pub uninterp spec fn space_id_entries(map: SpaceIdMap) -> Map<usize, usize>;

/// The entries of a [`SpacePairMap`].
pub uninterp spec fn space_pair_entries(map: SpacePairMap) -> Map<(usize, usize), usize>;

/// The entries of a [`SpacePairFlags`].
pub uninterp spec fn space_flag_entries(map: SpacePairFlags) -> Map<(usize, usize), bool>;

/// The entries of a [`SpaceListMap`].
pub uninterp spec fn space_list_entries(map: SpaceListMap) -> Map<usize, Vec<usize>>;

/// `hashbrown::HashMap::default`: a new map holds no entry.
#[verifier::external_body]
pub(crate) fn new_space_id_map() -> (fresh: SpaceIdMap)
    ensures
        forall|k| !#[trigger] space_id_entries(fresh).contains_key(k),
{
    SpaceIdMap { map: hashbrown::HashMap::default() }
}

/// `hashbrown::HashMap::get`: the value stored under `key`, if any.
#[verifier::external_body]
pub(crate) fn space_id_map_get(map: &SpaceIdMap, key: usize) -> (value: Option<usize>)
    ensures
        value == (if space_id_entries(*map).contains_key(key) {
            Some(space_id_entries(*map)[key])
        } else {
            None
        }),
{
    map.map.get(&key).copied()
}

/// `hashbrown::HashMap::insert`: `key` now maps to `value`, every other key is
/// unchanged.
#[verifier::external_body]
pub(crate) fn space_id_map_insert(map: &mut SpaceIdMap, key: usize, value: usize)
    ensures
        space_id_entries(*final(map)) == space_id_entries(*old(map)).insert(key, value),
{
    map.map.insert(key, value);
}

/// `hashbrown::HashMap::default`: a new map holds no entry.
#[verifier::external_body]
pub(crate) fn new_space_pair_map() -> (fresh: SpacePairMap)
    ensures
        forall|k| !#[trigger] space_pair_entries(fresh).contains_key(k),
{
    SpacePairMap { map: hashbrown::HashMap::default() }
}

/// `hashbrown::HashMap::get`: the value stored under `key`, if any.
#[verifier::external_body]
pub(crate) fn space_pair_map_get(map: &SpacePairMap, key: (usize, usize)) -> (value: Option<usize>)
    ensures
        value == (if space_pair_entries(*map).contains_key(key) {
            Some(space_pair_entries(*map)[key])
        } else {
            None
        }),
{
    map.map.get(&key).copied()
}

/// `hashbrown::HashMap::insert`: `key` now maps to `value`, every other key is
/// unchanged.
#[verifier::external_body]
pub(crate) fn space_pair_map_insert(map: &mut SpacePairMap, key: (usize, usize), value: usize)
    ensures
        space_pair_entries(*final(map)) == space_pair_entries(*old(map)).insert(key, value),
{
    map.map.insert(key, value);
}

/// `hashbrown::HashMap::default`: a new map holds no entry.
#[verifier::external_body]
pub(crate) fn new_space_pair_flags() -> (fresh: SpacePairFlags)
    ensures
        forall|k| !#[trigger] space_flag_entries(fresh).contains_key(k),
{
    SpacePairFlags { map: hashbrown::HashMap::default() }
}

/// `hashbrown::HashMap::get`: the flag stored under `key`, if any.
#[verifier::external_body]
pub(crate) fn space_pair_flags_get(map: &SpacePairFlags, key: (usize, usize)) -> (value: Option<bool>)
    ensures
        value == (if space_flag_entries(*map).contains_key(key) {
            Some(space_flag_entries(*map)[key])
        } else {
            None
        }),
{
    map.map.get(&key).copied()
}

/// `hashbrown::HashMap::insert`: `key` now maps to `value`, every other key is
/// unchanged.
#[verifier::external_body]
pub(crate) fn space_pair_flags_insert(map: &mut SpacePairFlags, key: (usize, usize), value: bool)
    ensures
        space_flag_entries(*final(map)) == space_flag_entries(*old(map)).insert(key, value),
{
    map.map.insert(key, value);
}

/// `hashbrown::HashMap::default`: a new map holds no entry.
#[verifier::external_body]
pub(crate) fn new_space_list_map() -> (fresh: SpaceListMap)
    ensures
        forall|k| !#[trigger] space_list_entries(fresh).contains_key(k),
{
    SpaceListMap { map: hashbrown::HashMap::default() }
}

/// `hashbrown::HashMap::get`, then a copy of the list found: the ids stored
/// under `key`, if any.
#[verifier::external_body]
pub(crate) fn space_list_map_get(map: &SpaceListMap, key: usize) -> (value: Option<Vec<usize>>)
    ensures
        match value {
            Some(list) => space_list_entries(*map).contains_key(key) && list@ == space_list_entries(*map)[key]@,
            None => !space_list_entries(*map).contains_key(key),
        },
{
    map.map.get(&key).cloned()
}

/// `hashbrown::HashMap::insert`: `key` now maps to `value`, every other key is
/// unchanged.
#[verifier::external_body]
pub(crate) fn space_list_map_insert(map: &mut SpaceListMap, key: usize, value: Vec<usize>)
    ensures
        space_list_entries(*final(map)) == space_list_entries(*old(map)).insert(key, value),
{
    map.map.insert(key, value);
}

/// The memoized results of the engine's space operations.
pub(crate) struct SpaceCaches {
    pub(crate) simplified_spaces: SpaceIdMap,
    pub(crate) subspace_results: SpacePairFlags,
    pub(crate) intersection_results: SpacePairMap,
    pub(crate) subtraction_results: SpacePairMap,
    pub(crate) flattened_spaces: SpaceListMap,
}

impl SpaceCaches {
    pub(crate) fn new() -> (caches: Self)
        ensures
            forall|k| !#[trigger] space_id_entries(caches.simplified_spaces).contains_key(k),
            forall|k| !#[trigger] space_flag_entries(caches.subspace_results).contains_key(k),
            forall|k| !#[trigger] space_pair_entries(caches.intersection_results).contains_key(k),
            forall|k| !#[trigger] space_pair_entries(caches.subtraction_results).contains_key(k),
            forall|k| !#[trigger] space_list_entries(caches.flattened_spaces).contains_key(k),
    {
        SpaceCaches {
            simplified_spaces: new_space_id_map(),
            subspace_results: new_space_pair_flags(),
            intersection_results: new_space_pair_map(),
            subtraction_results: new_space_pair_map(),
            flattened_spaces: new_space_list_map(),
        }
    }
}

} // verus!
