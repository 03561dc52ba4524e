use rustc_hash::FxHashMap;
use vstd::prelude::*;

verus! {

/// Values (counts or positions) keyed by a target sequence id, held in a `FxHashMap`.
#[verifier::external_body]
pub struct TargetMap {
    m: FxHashMap<u32, u32>,
}

/// Occurrence counts keyed by a target sequence id and a fragment id, held in a
/// `FxHashMap`.
#[verifier::external_body]
pub struct TargetFragCounts {
    m: FxHashMap<(u32, u32), u32>,
}

/// What a `TargetMap` holds.
pub uninterp spec fn target_table(t: TargetMap) -> Map<u32, u32>;

/// What a `TargetFragCounts` table holds.
pub uninterp spec fn target_frag_table(t: TargetFragCounts) -> Map<(u32, u32), u32>;

/// Relies on `FxHashMap::default`: a new map is empty.
#[verifier::external_body]
pub(crate) fn target_map_new() -> (r: TargetMap)
    ensures
        target_table(r).dom().is_empty(),
{
    TargetMap { m: FxHashMap::default() }
}

/// Relies on `HashMap::get` (of `FxHashMap`): the value stored under `k`, if any.
#[verifier::external_body]
pub(crate) fn target_map_get(t: &TargetMap, k: u32) -> (r: Option<u32>)
    ensures
        r is Some <==> target_table(*t).dom().contains(k),
        r matches Some(c) ==> c == target_table(*t)[k],
{
    t.m.get(&k).copied()
}

/// Relies on `HashMap::insert` (of `FxHashMap`): `k` maps to `c` afterwards, all other
/// entries stay.
#[verifier::external_body]
pub(crate) fn target_map_set(t: &mut TargetMap, k: u32, c: u32)
    ensures
        target_table(*final(t)) == target_table(*old(t)).insert(k, c),
{
    t.m.insert(k, c);
}

/// Relies on `FxHashMap::default`: a new map is empty.
#[verifier::external_body]
pub(crate) fn target_frag_counts_new() -> (r: TargetFragCounts)
    ensures
        target_frag_table(r).dom().is_empty(),
{
    TargetFragCounts { m: FxHashMap::default() }
}

/// Relies on `HashMap::get` (of `FxHashMap`): the value stored under `k`, if any.
#[verifier::external_body]
pub(crate) fn target_frag_counts_get(t: &TargetFragCounts, k: (u32, u32)) -> (r: Option<u32>)
    ensures
        r is Some <==> target_frag_table(*t).dom().contains(k),
        r matches Some(c) ==> c == target_frag_table(*t)[k],
{
    t.m.get(&k).copied()
}

/// Relies on `HashMap::insert` (of `FxHashMap`): `k` maps to `c` afterwards, all other
/// entries stay.
#[verifier::external_body]
pub(crate) fn target_frag_counts_set(t: &mut TargetFragCounts, k: (u32, u32), c: u32)
    ensures
        target_frag_table(*final(t)) == target_frag_table(*old(t)).insert(k, c),
{
    t.m.insert(k, c);
}

} // verus!
